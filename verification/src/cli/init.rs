//! The rules of `clipasm init`: which starter paths are acceptable, and which existing
//! paths keep a scaffold from being written.

use std::path::{Component, Path};

use vstd::prelude::*;

use crate::diagnostic::{decimal, spec_decimal, Diagnostic};
use crate::source::SourceSpan;

verus! {

/// One component of a path, as the standard library's path parser classifies it.
#[derive(Clone, Copy, Debug, PartialEq, Eq, Structural)]
pub enum PathComponentKind {
    Prefix,
    RootDir,
    CurDir,
    ParentDir,
    Normal,
}

/// The kinds of the components of `path`, in order.
///
/// Calls `std::path::Path::components` and classifies each component it yields. Nothing is
/// stated of the result: how a path splits depends on the platform's separators and prefixes.
#[verifier::external_body]
fn path_component_kinds(path: &str) -> (kinds: Vec<PathComponentKind>) {
    let mut kinds = Vec::new();
    for component in Path::new(path).components() {
        kinds.push(match component {
            Component::Prefix(_) => PathComponentKind::Prefix,
            Component::RootDir => PathComponentKind::RootDir,
            Component::CurDir => PathComponentKind::CurDir,
            Component::ParentDir => PathComponentKind::ParentDir,
            Component::Normal(_) => PathComponentKind::Normal,
        });
    }
    kinds
}

/// The file that a diagnostic about the initialization target points at.
pub open spec fn spec_target_file(target: Seq<char>) -> Seq<char> {
    if target.len() == 0 { "<command-line>"@ } else { target }
}

/// A diagnostic about an unusable initialization path.
pub fn init_path_error(target: &str, message: String) -> (error: Diagnostic)
    ensures
        error.code@ == "E_INIT_PATH"@,
        error.message@ == message@,
        error.span.file@ == spec_target_file(target@),
        error.span.line == 1,
        error.span.column == 1,
        error.notes@.len() == 0,
{
    let span = if target.unicode_len() == 0 {
        SourceSpan::file_start("<command-line>")
    } else {
        SourceSpan::file_start(target)
    };
    Diagnostic::new("E_INIT_PATH", message, span)
}

/// A diagnostic about a path that could not be inspected or written.
pub fn init_io_error(path: &str, message: String) -> (error: Diagnostic)
    ensures
        error.code@ == "E_INIT_IO"@,
        error.message@ == message@,
        error.span.file@ == path@,
        error.span.line == 1,
        error.span.column == 1,
        error.notes@.len() == 0,
{
    Diagnostic::new("E_INIT_IO", message, SourceSpan::file_start(path))
}

/// Whether a starter path is safe to create below the target: not empty, and made of
/// normal components only (no root, prefix, `.` or `..`).
pub open spec fn spec_safe_relative_path(path: Seq<char>, kinds: Seq<PathComponentKind>) -> bool {
    path.len() > 0 && forall|i: int| 0 <= i < kinds.len() ==> kinds[i] == PathComponentKind::Normal
}

/// The message for a starter path that is not safe.
pub open spec fn spec_unsafe_path_message(path: Seq<char>) -> Seq<char> {
    "starter path `"@ + path + "` is not a safe relative path"@
}

/// Accept a starter path whose components are `kinds` when it is safe below `target`.
pub fn check_relative_path(relative_path: &str, kinds: &[PathComponentKind], target: &str) -> (result: Result<(), Diagnostic>)
    ensures
        result is Ok <==> spec_safe_relative_path(relative_path@, kinds@),
        result matches Err(error) ==> {
            &&& error.code@ == "E_INIT_PATH"@
            &&& error.message@ == spec_unsafe_path_message(relative_path@)
            &&& error.span.file@ == spec_target_file(target@)
            &&& error.notes@.len() == 0
        },
{
    let mut safe = relative_path.unicode_len() > 0;
    let mut i: usize = 0;
    while i < kinds.len()
        invariant
            i <= kinds@.len(),
            safe <==> (relative_path@.len() > 0 && forall|j: int| 0 <= j < i ==> kinds@[j] == PathComponentKind::Normal),
        decreases kinds@.len() - i,
    {
        if kinds[i] != PathComponentKind::Normal {
            safe = false;
        }
        i = i + 1;
    }
    if safe {
        Ok(())
    } else {
        let mut message = String::from_str("starter path `");
        message.append(relative_path);
        message.append("` is not a safe relative path");
        Err(init_path_error(target, message))
    }
}

/// Accept a starter path that is safe to create below `target`.
///
/// Its components come from the standard library's path parser; an empty path is never safe.
pub fn validate_relative_path(relative_path: &str, target: &str) -> (result: Result<(), Diagnostic>)
    ensures
        relative_path@.len() == 0 ==> result is Err,
        result matches Err(error) ==> {
            &&& error.code@ == "E_INIT_PATH"@
            &&& error.message@ == spec_unsafe_path_message(relative_path@)
            &&& error.span.file@ == spec_target_file(target@)
            &&& error.notes@.len() == 0
        },
{
    let kinds = path_component_kinds(relative_path);
    check_relative_path(relative_path, kinds.as_slice(), target)
}

/// What inspecting one scaffold path found.
#[derive(Clone, Debug, PartialEq, Eq)]
pub enum PathInspection {
    /// Nothing exists at the path.
    Missing,
    /// A directory exists at the path.
    Directory,
    /// Something other than a directory exists at the path.
    OtherType,
    /// An ancestor of the path is not a directory.
    AncestorNotDirectory,
    /// Inspection failed for another reason, given as text.
    Failed(String),
}

/// A scaffold path together with what inspecting it found.
#[derive(Clone, Debug, PartialEq, Eq)]
pub struct InspectedPath {
    pub path: String,
    pub inspection: PathInspection,
}

/// The conflicts a planned directory reports.
pub open spec fn spec_directory_conflict(path: Seq<char>, inspection: PathInspection) -> Seq<Seq<char>> {
    match inspection {
        PathInspection::OtherType => seq!["`"@ + path + "` exists but is not a directory"@],
        PathInspection::AncestorNotDirectory => seq!["an ancestor of `"@ + path + "` is not a directory"@],
        _ => Seq::empty(),
    }
}

/// The conflicts a planned file reports: it must not exist yet.
pub open spec fn spec_file_conflict(path: Seq<char>, inspection: PathInspection) -> Seq<Seq<char>> {
    match inspection {
        PathInspection::Directory | PathInspection::OtherType => seq!["refusing to replace existing path `"@ + path + "`"@],
        PathInspection::AncestorNotDirectory => seq!["an ancestor of `"@ + path + "` is not a directory"@],
        _ => Seq::empty(),
    }
}

/// The conflicts of a list of planned directories (or files), in order.
pub open spec fn spec_path_conflicts(paths: Seq<InspectedPath>, files: bool) -> Seq<Seq<char>>
    decreases paths.len(),
{
    if paths.len() == 0 {
        Seq::empty()
    } else {
        let last = paths.last();
        spec_path_conflicts(paths.drop_last(), files) + if files {
            spec_file_conflict(last.path@, last.inspection)
        } else {
            spec_directory_conflict(last.path@, last.inspection)
        }
    }
}

/// Every conflict of a plan: a symbolic link on the way to the target, then the
/// directories', then the files'.
pub open spec fn spec_conflicts(symlink: Option<Seq<char>>, directories: Seq<InspectedPath>, files: Seq<InspectedPath>) -> Seq<Seq<char>> {
    let link = match symlink {
        Some(path) => seq!["refusing to initialize through symbolic link `"@ + path + "`"@],
        None => Seq::empty(),
    };
    link + spec_path_conflicts(directories, false) + spec_path_conflicts(files, true)
}

/// Whether inspecting `paths[i]` failed and inspecting every earlier path did not.
pub open spec fn spec_first_failure(paths: Seq<InspectedPath>, i: int) -> bool {
    &&& 0 <= i < paths.len()
    &&& paths[i].inspection is Failed
    &&& forall|j: int| 0 <= j < i ==> !(#[trigger] paths[j].inspection is Failed)
}

/// Whether no inspection of `paths` failed.
pub open spec fn spec_no_failure(paths: Seq<InspectedPath>) -> bool {
    forall|j: int| 0 <= j < paths.len() ==> !(#[trigger] paths[j].inspection is Failed)
}

/// Whether `error` reports that inspecting `path` failed.
pub open spec fn spec_inspection_error(path: InspectedPath, error: Diagnostic) -> bool {
    &&& error.code@ == "E_INIT_IO"@
    &&& error.message@ == "could not inspect `"@ + path.path@ + "`: "@ + path.inspection->Failed_0@
    &&& error.span.file@ == path.path@
    &&& error.notes@.len() == 0
}

/// The texts of a list of strings.
pub open spec fn spec_texts(strings: Seq<String>) -> Seq<Seq<char>> {
    strings.map_values(|text: String| text@)
}

/// Whether `error` reports the conflicts of a plan for `target`.
pub open spec fn spec_conflict_error(target: Seq<char>, conflicts: Seq<Seq<char>>, error: Diagnostic) -> bool {
    &&& error.code@ == "E_INIT_CONFLICT"@
    &&& error.message@ == "cannot initialize `"@ + target + "` because "@ + spec_decimal(conflicts.len() as u64)
        + " scaffold path(s) conflict"@
    &&& error.span.file@ == target
    &&& spec_texts(error.notes@) == conflicts
}

fn inspection_error(path: &InspectedPath, error: &String) -> (diagnostic: Diagnostic)
    requires
        path.inspection == PathInspection::Failed(*error),
    ensures
        spec_inspection_error(*path, diagnostic),
{
    let mut message = String::from_str("could not inspect `");
    message.append(path.path.as_str());
    message.append("`: ");
    message.append(error.as_str());
    init_io_error(path.path.as_str(), message)
}

/// Collect the conflicts of planned paths, or report the first that could not be inspected.
fn collect_conflicts(paths: &[InspectedPath], files: bool, conflicts: &mut Vec<String>) -> (result: Result<(), Diagnostic>)
    ensures
        result is Ok <==> spec_no_failure(paths@),
        result matches Ok(_) ==> spec_texts(final(conflicts)@) == spec_texts(old(conflicts)@) + spec_path_conflicts(paths@, files),
        result matches Err(error) ==> exists|i: int| spec_first_failure(paths@, i) && spec_inspection_error(paths@[i], error),
{
    let ghost start = spec_texts(conflicts@);
    let mut i: usize = 0;
    while i < paths.len()
        invariant
            i <= paths@.len(),
            spec_texts(conflicts@) == start + spec_path_conflicts(paths@.subrange(0, i as int), files),
            forall|j: int| 0 <= j < i ==> !(#[trigger] paths@[j].inspection is Failed),
        decreases paths@.len() - i,
    {
        let path = &paths[i];
        proof {
            assert(paths@.subrange(0, i + 1).drop_last() =~= paths@.subrange(0, i as int));
            assert(paths@.subrange(0, i + 1).last() == paths@[i as int]);
        }
        let ghost before = conflicts@;
        match &path.inspection {
            PathInspection::Failed(error) => {
                proof {
                    assert(spec_first_failure(paths@, i as int));
                }
                return Err(inspection_error(path, error));
            }
            PathInspection::OtherType => {
                let mut text = if files { String::from_str("refusing to replace existing path `") } else { String::from_str("`") };
                text.append(path.path.as_str());
                if files {
                    text.append("`");
                } else {
                    text.append("` exists but is not a directory");
                }
                conflicts.push(text);
            }
            PathInspection::Directory => {
                if files {
                    let mut text = String::from_str("refusing to replace existing path `");
                    text.append(path.path.as_str());
                    text.append("`");
                    conflicts.push(text);
                }
            }
            PathInspection::AncestorNotDirectory => {
                let mut text = String::from_str("an ancestor of `");
                text.append(path.path.as_str());
                text.append("` is not a directory");
                conflicts.push(text);
            }
            PathInspection::Missing => {}
        }
        proof {
            assert(spec_texts(before.push(conflicts@.last())) =~= spec_texts(before).push(conflicts@.last()@));
        }
        i = i + 1;
    }
    proof {
        assert(paths@.subrange(0, i as int) =~= paths@);
    }
    Ok(())
}

/// Decide whether a scaffold may be written at `target`, given the symbolic link found on the
/// way to it, if any, and what inspecting each planned directory and file found.
///
/// Fails with `E_INIT_IO` for the first path that could not be inspected, directories first,
/// and otherwise with `E_INIT_CONFLICT`, one note per conflict, when anything is in the way.
pub fn detect_conflicts(target: &str, symlink: Option<String>, directories: &[InspectedPath], files: &[InspectedPath]) -> (result: Result<(), Diagnostic>)
    ensures
        (exists|i: int| spec_first_failure(directories@, i)) ==> (result matches Err(error)
            && exists|i: int| spec_first_failure(directories@, i) && spec_inspection_error(directories@[i], error)),
        spec_no_failure(directories@) && (exists|i: int| spec_first_failure(files@, i)) ==> (result matches Err(error)
            && exists|i: int| spec_first_failure(files@, i) && spec_inspection_error(files@[i], error)),
        spec_no_failure(directories@) && spec_no_failure(files@) ==> {
            let conflicts = spec_conflicts(match symlink { Some(link) => Some(link@), None => None }, directories@, files@);
            &&& (result is Ok <==> conflicts.len() == 0)
            &&& result matches Err(error) ==> spec_conflict_error(target@, conflicts, error)
        },
{
    let ghost link = match &symlink { Some(link) => Some(link@), None => None };
    let mut conflicts: Vec<String> = Vec::new();
    match &symlink {
        Some(link) => {
            let mut text = String::from_str("refusing to initialize through symbolic link `");
            text.append(link.as_str());
            text.append("`");
            conflicts.push(text);
        }
        None => {}
    }
    proof {
        let expected = match link {
            Some(path) => seq!["refusing to initialize through symbolic link `"@ + path + "`"@],
            None => Seq::<Seq<char>>::empty(),
        };
        assert(spec_texts(conflicts@) =~= expected);
    }
    match collect_conflicts(directories, false, &mut conflicts) {
        Err(error) => {
            proof {
                lemma_failure_is_first(directories@);
            }
            return Err(error);
        }
        Ok(()) => {}
    }
    match collect_conflicts(files, true, &mut conflicts) {
        Err(error) => {
            proof {
                lemma_failure_is_first(files@);
            }
            return Err(error);
        }
        Ok(()) => {}
    }
    proof {
        assert(spec_texts(conflicts@) =~= spec_conflicts(link, directories@, files@));
    }
    if conflicts.len() == 0 {
        return Ok(());
    }
    let mut message = String::from_str("cannot initialize `");
    message.append(target);
    message.append("` because ");
    let count = decimal(conflicts.len() as u64);
    message.append(count.as_str());
    message.append(" scaffold path(s) conflict");
    Err(Diagnostic { code: "E_INIT_CONFLICT", message, span: SourceSpan::file_start(target), notes: conflicts })
}

/// At most one path is the first whose inspection failed.
proof fn lemma_failure_is_first(paths: Seq<InspectedPath>)
    ensures
        forall|i: int, j: int| spec_first_failure(paths, i) && spec_first_failure(paths, j) ==> i == j,
{
    assert forall|i: int, j: int| spec_first_failure(paths, i) && spec_first_failure(paths, j) implies i == j by {
        if i < j {
            assert(!(paths[i].inspection is Failed));
        } else if j < i {
            assert(!(paths[j].inspection is Failed));
        }
    }
}

/// A path that initialization created, and so removes again when a later step fails.
#[derive(Clone, Debug, PartialEq, Eq)]
pub enum CreatedPath {
    Directory(String),
    File { path: String, expected_contents: Vec<u8> },
}

impl CreatedPath {
    /// The created path.
    pub fn path(&self) -> (path: &str)
        ensures
            path@ == match *self { CreatedPath::Directory(path) => path@, CreatedPath::File { path, .. } => path@ },
    {
        match self {
            CreatedPath::Directory(path) => path.as_str(),
            CreatedPath::File { path, .. } => path.as_str(),
        }
    }
}

/// What inspecting a created path found when cleaning up.
#[derive(Clone, Debug, PartialEq, Eq)]
pub enum CleanupObservation {
    /// An ancestor of the path changed; the text says how.
    AncestryChanged(String),
    /// Nothing exists at the path any more.
    Missing,
    /// A directory exists at the path.
    Directory,
    /// A regular file exists at the path; its contents are given where they were read.
    RegularFile(Option<Vec<u8>>),
    /// Something else exists at the path.
    Other,
    /// Inspecting or reading the path failed; the text says why.
    Failed(String),
}

/// What cleanup does with one created path.
#[derive(Clone, Debug, PartialEq, Eq)]
pub enum CleanupAction {
    RemoveDirectory,
    RemoveFile,
    /// Leave the path alone without comment.
    Skip,
    /// Leave the path and add this note to the diagnostic.
    Preserve(String),
}

/// Whether `prefix` is a prefix of `contents`.
pub open spec fn spec_starts_with(contents: Seq<u8>, prefix: Seq<u8>) -> bool {
    prefix.len() <= contents.len() && contents.subrange(0, prefix.len() as int) == prefix
}

/// The note for a created path that could not be removed.
pub open spec fn spec_removal_note(path: Seq<char>, error: Seq<char>) -> Seq<char> {
    "could not remove incomplete scaffold path `"@ + path + "`: "@ + error
}

/// What cleanup does with a created path, given what inspecting it found.
pub open spec fn spec_cleanup_action(created: CreatedPath, observation: CleanupObservation) -> (Option<Seq<char>>, int) {
    let path = match created { CreatedPath::Directory(path) => path@, CreatedPath::File { path, .. } => path@ };
    let changed_type = "preserved `"@ + path + "` because its file type changed during initialization"@;
    match observation {
        CleanupObservation::AncestryChanged(reason) =>
            (Some("preserved incomplete scaffold path `"@ + path + "` because its ancestry changed: "@ + reason@), 0),
        CleanupObservation::Missing => (None, 0),
        CleanupObservation::Directory => match created {
            CreatedPath::Directory(_) => (None, 1),
            CreatedPath::File { .. } => (Some(changed_type), 0),
        },
        CleanupObservation::RegularFile(contents) => match created {
            CreatedPath::File { expected_contents, .. } => match contents {
                Some(contents) => if spec_starts_with(expected_contents@, contents@) {
                    (None, 2)
                } else {
                    (Some("preserved `"@ + path + "` because its contents changed during initialization"@), 0)
                },
                None => (Some(changed_type), 0),
            },
            CreatedPath::Directory(_) => (Some(changed_type), 0),
        },
        CleanupObservation::Other => (Some(changed_type), 0),
        CleanupObservation::Failed(error) => (Some(spec_removal_note(path, error@)), 0),
    }
}

/// Whether `action` is what `spec_cleanup_action` describes: a note, or a removal (1 for a
/// directory, 2 for a file), or neither.
pub open spec fn spec_is_action(action: CleanupAction, described: (Option<Seq<char>>, int)) -> bool {
    match action {
        CleanupAction::RemoveDirectory => described == (None::<Seq<char>>, 1int),
        CleanupAction::RemoveFile => described == (None::<Seq<char>>, 2int),
        CleanupAction::Skip => described == (None::<Seq<char>>, 0int),
        CleanupAction::Preserve(note) => described.0 == Some(note@) && described.1 == 0,
    }
}

fn starts_with(contents: &Vec<u8>, prefix: &Vec<u8>) -> (result: bool)
    ensures
        result == spec_starts_with(contents@, prefix@),
{
    if prefix.len() > contents.len() {
        return false;
    }
    let mut i: usize = 0;
    while i < prefix.len()
        invariant
            prefix@.len() <= contents@.len(),
            i <= prefix@.len(),
            forall|j: int| 0 <= j < i ==> contents@[j] == prefix@[j],
        decreases prefix@.len() - i,
    {
        if contents[i] != prefix[i] {
            proof {
                assert(contents@.subrange(0, prefix@.len() as int)[i as int] != prefix@[i as int]);
            }
            return false;
        }
        i = i + 1;
    }
    proof {
        assert(contents@.subrange(0, prefix@.len() as int) =~= prefix@);
    }
    true
}

/// The note for a created path that could not be removed.
pub fn removal_note(path: &str, error: &str) -> (note: String)
    ensures
        note@ == spec_removal_note(path@, error@),
{
    let mut note = String::from_str("could not remove incomplete scaffold path `");
    note.append(path);
    note.append("`: ");
    note.append(error);
    note
}

/// Decide what cleanup does with a created path, given what inspecting it found: remove what
/// initialization created and still finds unchanged, and say why anything else is kept.
///
/// A created file counts as unchanged while its contents are a prefix of what was to be written.
pub fn cleanup_action(created: &CreatedPath, observation: &CleanupObservation) -> (action: CleanupAction)
    ensures
        spec_is_action(action, spec_cleanup_action(*created, *observation)),
{
    let path = created.path();
    let changed_type = || -> (note: String)
        ensures
            note@ == "preserved `"@ + path@ + "` because its file type changed during initialization"@,
    {
        let mut note = String::from_str("preserved `");
        note.append(path);
        note.append("` because its file type changed during initialization");
        note
    };
    match observation {
        CleanupObservation::AncestryChanged(reason) => {
            let mut note = String::from_str("preserved incomplete scaffold path `");
            note.append(path);
            note.append("` because its ancestry changed: ");
            note.append(reason.as_str());
            CleanupAction::Preserve(note)
        }
        CleanupObservation::Missing => CleanupAction::Skip,
        CleanupObservation::Directory => match created {
            CreatedPath::Directory(_) => CleanupAction::RemoveDirectory,
            CreatedPath::File { .. } => CleanupAction::Preserve(changed_type()),
        },
        CleanupObservation::RegularFile(contents) => match created {
            CreatedPath::File { expected_contents, .. } => match contents {
                Some(contents) => if starts_with(expected_contents, contents) {
                    CleanupAction::RemoveFile
                } else {
                    let mut note = String::from_str("preserved `");
                    note.append(path);
                    note.append("` because its contents changed during initialization");
                    CleanupAction::Preserve(note)
                },
                None => CleanupAction::Preserve(changed_type()),
            },
            CreatedPath::Directory(_) => CleanupAction::Preserve(changed_type()),
        },
        CleanupObservation::Other => CleanupAction::Preserve(changed_type()),
        CleanupObservation::Failed(error) => CleanupAction::Preserve(removal_note(path, error.as_str())),
    }
}

} // verus!
