//! Project manifests: the rule for the entrypoint path and the source location
//! of a byte offset in the manifest text.

use vstd::prelude::*;

use crate::diagnostic::{BuiltinDiagnostic, Diagnostic};
use crate::source::SourceSpan;
use crate::text::to_chars;

verus! {

/// The number of UTF-8 bytes that encode `character`.
pub open spec fn spec_utf8_len(character: char) -> nat {
    let code = character as u32;
    if code < 0x80 { 1 } else if code < 0x800 { 2 } else if code < 0x1_0000 { 3 } else { 4 }
}

/// The number of UTF-8 bytes that encode `text`.
pub open spec fn spec_byte_len(text: Seq<char>) -> nat
    decreases text.len(),
{
    if text.len() == 0 { 0 } else { spec_byte_len(text.drop_last()) + spec_utf8_len(text.last()) }
}

/// The text before byte `offset`, or the whole text when `offset` is past its end
/// or inside a character.
pub open spec fn spec_prefix_at(text: Seq<char>, offset: int) -> Seq<char> {
    if exists|k: int| 0 <= k <= text.len() && spec_byte_len(#[trigger] text.subrange(0, k)) == offset {
        text.subrange(0, choose|k: int| 0 <= k <= text.len() && spec_byte_len(#[trigger] text.subrange(0, k)) == offset)
    } else {
        text
    }
}

/// The number of line breaks in `text`.
pub open spec fn spec_line_breaks(text: Seq<char>) -> nat
    decreases text.len(),
{
    if text.len() == 0 { 0 } else { spec_line_breaks(text.drop_last()) + if text.last() == '\n' { 1nat } else { 0nat } }
}

/// The number of characters after the last line break of `text`, or all of them.
pub open spec fn spec_last_line_len(text: Seq<char>) -> nat
    decreases text.len(),
{
    if text.len() == 0 { 0 } else if text.last() == '\n' { 0 } else { spec_last_line_len(text.drop_last()) + 1 }
}

proof fn lemma_byte_len_grows(text: Seq<char>, j: int, k: int)
    requires
        0 <= j < k <= text.len(),
    ensures
        spec_byte_len(text.subrange(0, j)) < spec_byte_len(text.subrange(0, k)),
    decreases k - j,
{
    assert(text.subrange(0, k).drop_last() =~= text.subrange(0, k - 1));
    if j < k - 1 {
        lemma_byte_len_grows(text, j, k - 1);
    }
}

fn utf8_len(character: char) -> (length: usize)
    ensures
        length == spec_utf8_len(character),
{
    let code = character as u32;
    if code < 0x80 { 1 } else if code < 0x800 { 2 } else if code < 0x1_0000 { 3 } else { 4 }
}

/// Return the one-based line and column, counted in characters, of byte `offset` in `text`.
///
/// An offset past the end of the text, or inside a character, gives the position after the text.
pub fn line_column(text: &str, offset: usize) -> (position: (usize, usize))
    requires
        text@.len() < usize::MAX,
    ensures
        position.0 == spec_line_breaks(spec_prefix_at(text@, offset as int)) + 1,
        position.1 == spec_last_line_len(spec_prefix_at(text@, offset as int)) + 1,
{
    let chars = to_chars(text);
    let mut bytes: usize = 0;
    let mut k: usize = 0;
    let mut exceeded = false;
    while k < chars.len() && bytes < offset && !exceeded
        invariant
            chars@ == text@,
            k <= chars@.len(),
            bytes == spec_byte_len(chars@.subrange(0, k as int)),
            bytes <= offset,
            exceeded ==> bytes < offset && k < chars@.len() && spec_byte_len(chars@.subrange(0, k + 1)) > offset,
        decreases chars@.len() - k, if exceeded { 0int } else { 1int },
    {
        let width = utf8_len(chars[k]);
        proof {
            assert(chars@.subrange(0, k + 1).drop_last() =~= chars@.subrange(0, k as int));
        }
        if width > offset - bytes {
            exceeded = true;
        } else {
            bytes = bytes + width;
            k = k + 1;
        }
    }
    let found = !exceeded && bytes == offset;
    let end = if found { k } else { chars.len() };
    proof {
        let prefix = spec_prefix_at(text@, offset as int);
        if found {
            let c = choose|c: int| 0 <= c <= text@.len() && spec_byte_len(#[trigger] text@.subrange(0, c)) == offset;
            assert(spec_byte_len(text@.subrange(0, k as int)) == offset);
            if c < k {
                lemma_byte_len_grows(chars@, c, k as int);
            } else if c > k {
                lemma_byte_len_grows(chars@, k as int, c);
            }
            assert(prefix == chars@.subrange(0, end as int));
        } else {
            assert forall|c: int| 0 <= c <= text@.len() implies spec_byte_len(#[trigger] text@.subrange(0, c)) != offset by {
                if c < k {
                    lemma_byte_len_grows(chars@, c, k as int);
                } else if c > k + 1 {
                    lemma_byte_len_grows(chars@, k + 1, c);
                }
            }
            assert(chars@.subrange(0, end as int) =~= chars@);
        }
    }
    let mut line: usize = 1;
    let mut column: usize = 1;
    let mut i: usize = 0;
    while i < end
        invariant
            end <= chars@.len(),
            chars@.len() < usize::MAX,
            i <= end,
            line == spec_line_breaks(chars@.subrange(0, i as int)) + 1,
            column == spec_last_line_len(chars@.subrange(0, i as int)) + 1,
            line <= i + 1,
            column <= i + 1,
        decreases end - i,
    {
        proof {
            assert(chars@.subrange(0, i + 1).drop_last() =~= chars@.subrange(0, i as int));
        }
        if chars[i] == '\n' {
            line = line + 1;
            column = 1;
        } else {
            column = column + 1;
        }
        i = i + 1;
    }
    (line, column)
}

/// The code of the ASCII lowercase form of a character.
pub open spec fn spec_lower_code(character: char) -> u32 {
    if 'A' <= character && character <= 'Z' { ((character as u32) + 32) as u32 } else { character as u32 }
}

/// Whether a path segment starts at position `i` of `value`.
pub open spec fn spec_segment_starts(value: Seq<char>, i: int) -> bool {
    i == 0 || value[i - 1] == '/'
}

/// Whether a path segment ends before position `j` of `value`.
pub open spec fn spec_segment_ends(value: Seq<char>, j: int) -> bool {
    j == value.len() || value[j] == '/'
}

/// Whether an entrypoint path is a forward-slash relative path ending in `.clipasm`: its
/// `/`-separated segments are neither empty nor `.` nor `..`, it holds no `\` and no `:`,
/// and it ends in `.clipasm` in any ASCII case.
pub open spec fn spec_entrypoint_valid(value: Seq<char>) -> bool {
    let suffix = ".clipasm"@;
    &&& value.len() > 0
    &&& forall|i: int| 0 <= i < value.len() ==> (#[trigger] value[i] != '\\' && value[i] != ':')
    &&& forall|i: int| 0 <= i < value.len() && #[trigger] spec_segment_starts(value, i) ==> {
        &&& value[i] != '/'
        &&& !(value[i] == '.' && spec_segment_ends(value, i + 1))
        &&& !(value[i] == '.' && i + 1 < value.len() && value[i + 1] == '.' && spec_segment_ends(value, i + 2))
    }
    &&& value.last() != '/'
    &&& value.len() >= suffix.len()
    &&& forall|k: int| 0 <= k < suffix.len() ==> spec_lower_code(#[trigger] value[value.len() - suffix.len() + k]) == suffix[k] as u32
}

/// Whether a path segment starts at position `i` and violates the entrypoint rule there.
fn segment_violation(value: &Vec<char>, i: usize) -> (bad: bool)
    requires
        i < value@.len(),
        spec_segment_starts(value@, i as int),
    ensures
        bad == !({
            &&& value@[i as int] != '/'
            &&& !(value@[i as int] == '.' && spec_segment_ends(value@, i + 1))
            &&& !(value@[i as int] == '.' && i + 1 < value@.len() && value@[i + 1] == '.' && spec_segment_ends(value@, i + 2))
        }),
{
    let n = value.len();
    if value[i] == '/' {
        return true;
    }
    if value[i] == '.' {
        if i + 1 == n || value[i + 1] == '/' {
            return true;
        }
        if value[i + 1] == '.' && (i + 2 == n || value[i + 2] == '/') {
            return true;
        }
    }
    false
}

/// Decide whether an entrypoint path is a forward-slash relative path ending in `.clipasm`.
pub fn entrypoint_is_valid(value: &str) -> (valid: bool)
    ensures
        valid == spec_entrypoint_valid(value@),
{
    let chars = to_chars(value);
    let suffix = to_chars(".clipasm");
    proof {
        reveal_strlit(".clipasm");
    }
    let n = chars.len();
    if n == 0 || n < suffix.len() || chars[n - 1] == '/' {
        return false;
    }
    let mut i: usize = 0;
    while i < n
        invariant
            n == chars@.len(),
            chars@ == value@,
            i <= n,
            forall|j: int| 0 <= j < i ==> (#[trigger] chars@[j] != '\\' && chars@[j] != ':'),
            forall|j: int| 0 <= j < i && #[trigger] spec_segment_starts(chars@, j) ==> {
                &&& chars@[j] != '/'
                &&& !(chars@[j] == '.' && spec_segment_ends(chars@, j + 1))
                &&& !(chars@[j] == '.' && j + 1 < chars@.len() && chars@[j + 1] == '.' && spec_segment_ends(chars@, j + 2))
            },
        decreases n - i,
    {
        if chars[i] == '\\' || chars[i] == ':' {
            return false;
        }
        if i == 0 || chars[i - 1] == '/' {
            proof {
                assert(spec_segment_starts(chars@, i as int));
            }
            if segment_violation(&chars, i) {
                return false;
            }
        }
        i = i + 1;
    }
    let offset = n - suffix.len();
    let mut k: usize = 0;
    while k < suffix.len()
        invariant
            n == chars@.len(),
            chars@ == value@,
            suffix@ == ".clipasm"@,
            offset + suffix@.len() == n,
            k <= suffix@.len(),
            forall|j: int| 0 <= j < k ==> spec_lower_code(#[trigger] chars@[n - suffix@.len() + j]) == suffix@[j] as u32,
        decreases suffix@.len() - k,
    {
        let character = chars[offset + k];
        let lower = if 'A' <= character && character <= 'Z' { (character as u32) + 32 } else { character as u32 };
        if lower != suffix[k] as u32 {
            proof {
                assert(spec_lower_code(chars@[n - suffix@.len() + k]) != suffix@[k as int] as u32);
                assert(!spec_entrypoint_valid(value@));
            }
            return false;
        }
        k = k + 1;
    }
    true
}

/// Require a manifest's `project.entrypoint` to be a forward-slash relative path ending in
/// `.clipasm`, and return it.
///
/// Fails with `E_PROJECT_MANIFEST` at the line and column of byte `offset` of the manifest text.
pub fn validate_entrypoint(value: &str, offset: usize, manifest: &str, manifest_text: &str) -> (result: Result<String, Diagnostic>)
    requires
        manifest_text@.len() < usize::MAX,
    ensures
        spec_entrypoint_valid(value@) ==> (result matches Ok(path) && path@ == value@),
        !spec_entrypoint_valid(value@) ==> (result matches Err(error)
            && error.code@ == "E_PROJECT_MANIFEST"@
            && error.message@ == "`project.entrypoint` must be a forward-slash relative path ending in `.clipasm`"@
            && error.span.file@ == manifest@
            && error.span.line == spec_line_breaks(spec_prefix_at(manifest_text@, offset as int)) + 1
            && error.span.column == spec_last_line_len(spec_prefix_at(manifest_text@, offset as int)) + 1),
{
    if entrypoint_is_valid(value) {
        return Ok(value.to_owned());
    }
    let (line, column) = line_column(manifest_text, offset);
    Err(Diagnostic::builtin(
        BuiltinDiagnostic::ProjectManifest,
        String::from_str("`project.entrypoint` must be a forward-slash relative path ending in `.clipasm`"),
        SourceSpan::at(manifest, line, column),
    ))
}

/// What inspecting one candidate manifest path found.
#[derive(Clone, Debug, PartialEq, Eq)]
pub enum ManifestInspection {
    /// Nothing exists at the path.
    Missing,
    /// A regular file exists at the path.
    RegularFile,
    /// Something other than a regular file or a symbolic link exists at the path.
    OtherType,
    /// A symbolic link that resolves to a regular file.
    LinkToFile,
    /// A symbolic link that resolves to something other than a regular file.
    LinkToOther,
    /// A symbolic link that could not be resolved; the text says why.
    BrokenLink(String),
    /// Inspecting the path failed for another reason; the text says why.
    Failed(String),
}

/// What discovery does after inspecting one candidate manifest path.
#[derive(Clone, Debug, PartialEq, Eq)]
pub enum ManifestStep {
    /// The candidate is the project's manifest.
    Found,
    /// Nothing is here; go on to the parent directory.
    Continue,
    /// Discovery stops with this diagnostic.
    Fail(Diagnostic),
}

/// The message with which discovery stops at `candidate`, if it does so with an error.
pub open spec fn spec_manifest_failure(candidate: Seq<char>, inspection: ManifestInspection) -> Option<Seq<char>> {
    match inspection {
        ManifestInspection::OtherType => Some("project manifest path `"@ + candidate + "` is not a regular file"@),
        ManifestInspection::LinkToOther => Some("project manifest path `"@ + candidate + "` does not resolve to a regular file"@),
        ManifestInspection::BrokenLink(error) => Some("could not resolve project manifest path `"@ + candidate + "`: "@ + error@),
        ManifestInspection::Failed(error) => Some("could not inspect project manifest path `"@ + candidate + "`: "@ + error@),
        _ => None,
    }
}

/// Decide what discovery does with a candidate manifest path: a regular file, directly or
/// through a link, is the manifest; a missing path sends the search to the parent directory;
/// anything else stops the search with `E_PROJECT_IO` at the candidate.
pub fn manifest_step(candidate: &str, inspection: &ManifestInspection) -> (step: ManifestStep)
    ensures
        step is Found <==> (*inspection == ManifestInspection::RegularFile || *inspection == ManifestInspection::LinkToFile),
        step is Continue <==> *inspection == ManifestInspection::Missing,
        step matches ManifestStep::Fail(error) ==> {
            &&& spec_manifest_failure(candidate@, *inspection) == Some(error.message@)
            &&& error.code@ == "E_PROJECT_IO"@
            &&& error.span.file@ == candidate@
            &&& error.span.line == 1
            &&& error.span.column == 1
            &&& error.notes@.len() == 0
        },
{
    let mut message = match inspection {
        ManifestInspection::Missing => {
            return ManifestStep::Continue;
        }
        ManifestInspection::RegularFile | ManifestInspection::LinkToFile => {
            return ManifestStep::Found;
        }
        ManifestInspection::OtherType | ManifestInspection::LinkToOther => String::from_str("project manifest path `"),
        ManifestInspection::BrokenLink(_) => String::from_str("could not resolve project manifest path `"),
        ManifestInspection::Failed(_) => String::from_str("could not inspect project manifest path `"),
    };
    message.append(candidate);
    match inspection {
        ManifestInspection::OtherType => message.append("` is not a regular file"),
        ManifestInspection::LinkToOther => message.append("` does not resolve to a regular file"),
        ManifestInspection::BrokenLink(error) | ManifestInspection::Failed(error) => {
            message.append("`: ");
            message.append(error.as_str());
        }
        _ => {}
    }
    ManifestStep::Fail(Diagnostic::builtin(BuiltinDiagnostic::ProjectIo, message, SourceSpan::file_start(candidate)))
}

/// The diagnostic for a search that found no manifest from `current` upward.
pub fn project_not_found(current: &str) -> (error: Diagnostic)
    ensures
        error.code@ == "E_PROJECT_NOT_FOUND"@,
        error.message@ == "could not find `clipasm.toml` in `"@ + current@ + "` or any parent directory"@,
        error.span.file@ == current@,
        error.notes@.len() == 1,
        error.notes@[0]@ == "supply an explicit `.clipasm` source path or run `clipasm init`"@,
{
    let mut message = String::from_str("could not find `clipasm.toml` in `");
    message.append(current);
    message.append("` or any parent directory");
    Diagnostic::builtin(BuiltinDiagnostic::ProjectNotFound, message, SourceSpan::file_start(current))
        .note(String::from_str("supply an explicit `.clipasm` source path or run `clipasm init`"))
}

} // verus!
