//! Explanations of diagnostic codes: the terminal-safe display of an unknown code.

use vstd::prelude::*;

use crate::cli::{hex, lemma_hex_chars, spec_hex, spec_is_hex_char};
use crate::diagnostic::{BuiltinDiagnostic, Diagnostic};
use crate::source::SourceSpan;
use crate::text::{push_char, to_chars};

verus! {

/// The index of diagnostic references.
pub const DIAGNOSTIC_INDEX_URL: &'static str = "https://nikitamgrimm.github.io/clipasm/reference/diagnostics/";

/// At most this many characters of an unknown code are shown.
pub const MAX_DISPLAYED_CODE_CHARACTERS: usize = 120;

/// How one character of a code is shown: printable ASCII and spaces as they are, others as `\u{X}`.
pub open spec fn spec_code_char(character: char) -> Seq<char> {
    if ('!' <= character && character <= '~') || character == ' ' {
        seq![character]
    } else {
        "\\u{"@ + spec_hex(character as u32) + "}"@
    }
}

/// How characters of a code are shown, one after another.
pub open spec fn spec_code_chars(code: Seq<char>) -> Seq<char>
    decreases code.len(),
{
    if code.len() == 0 {
        Seq::empty()
    } else {
        spec_code_chars(code.drop_last()) + spec_code_char(code.last())
    }
}

/// How a code is shown: its first characters escaped, then `...` when more remain.
pub open spec fn spec_display_code(code: Seq<char>) -> Seq<char> {
    if code.len() <= MAX_DISPLAYED_CODE_CHARACTERS {
        spec_code_chars(code)
    } else {
        spec_code_chars(code.subrange(0, MAX_DISPLAYED_CODE_CHARACTERS as int)) + "..."@
    }
}

/// Whether a character is printable ASCII: a space or a graphic character.
pub open spec fn spec_is_printable_ascii(character: char) -> bool {
    ' ' <= character && character <= '~'
}

proof fn lemma_code_chars_printable(code: Seq<char>)
    ensures
        forall|i: int| 0 <= i < spec_code_chars(code).len() ==> spec_is_printable_ascii(#[trigger] spec_code_chars(code)[i]),
    decreases code.len(),
{
    if code.len() > 0 {
        lemma_code_chars_printable(code.drop_last());
        let c = code.last();
        let shown = spec_code_char(c);
        assert forall|i: int| 0 <= i < shown.len() implies spec_is_printable_ascii(#[trigger] shown[i]) by {
            if !(('!' <= c && c <= '~') || c == ' ') {
                let digits = spec_hex(c as u32);
                lemma_hex_chars(c as u32);
                reveal_strlit("\\u{");
                reveal_strlit("}");
                if 3 <= i < 3 + digits.len() {
                    assert(shown[i] == digits[i - 3]);
                    assert(spec_is_hex_char(digits[i - 3]));
                }
            }
        }
        let prefix = spec_code_chars(code.drop_last());
        assert(spec_code_chars(code) == prefix + shown);
        assert forall|i: int| 0 <= i < spec_code_chars(code).len()
            implies spec_is_printable_ascii(#[trigger] spec_code_chars(code)[i]) by {
            if i < prefix.len() {
                assert(spec_code_chars(code)[i] == prefix[i]);
            } else {
                assert(spec_code_chars(code)[i] == shown[i - prefix.len()]);
            }
        }
    }
}

/// A displayed code is printable ASCII only, whatever the user typed: every other character
/// is shown by its `\u{X}` escape.
pub proof fn lemma_display_code_printable(code: Seq<char>)
    ensures
        forall|i: int| 0 <= i < spec_display_code(code).len() ==> spec_is_printable_ascii(#[trigger] spec_display_code(code)[i]),
{
    if code.len() <= MAX_DISPLAYED_CODE_CHARACTERS {
        lemma_code_chars_printable(code);
    } else {
        let head = spec_code_chars(code.subrange(0, MAX_DISPLAYED_CODE_CHARACTERS as int));
        lemma_code_chars_printable(code.subrange(0, MAX_DISPLAYED_CODE_CHARACTERS as int));
        reveal_strlit("...");
        assert forall|i: int| 0 <= i < spec_display_code(code).len()
            implies spec_is_printable_ascii(#[trigger] spec_display_code(code)[i]) by {
            if i < head.len() {
                assert(spec_display_code(code)[i] == head[i]);
            } else {
                assert(spec_display_code(code)[i] == "..."@[i - head.len()]);
            }
        }
    }
}

/// Render a user-supplied diagnostic code for a terminal: escaped and shortened.
pub fn safe_display_code(code: &str) -> (displayed: String)
    ensures
        displayed@ == spec_display_code(code@),
{
    let text = to_chars(code);
    let shown = if text.len() < MAX_DISPLAYED_CODE_CHARACTERS { text.len() } else { MAX_DISPLAYED_CODE_CHARACTERS };
    let mut displayed = String::new();
    let mut i: usize = 0;
    while i < shown
        invariant
            i <= shown <= text@.len(),
            shown <= MAX_DISPLAYED_CODE_CHARACTERS,
            text@ == code@,
            displayed@ == spec_code_chars(text@.subrange(0, i as int)),
        decreases shown - i,
    {
        proof {
            assert(text@.subrange(0, i + 1).drop_last() =~= text@.subrange(0, i as int));
        }
        let character = text[i];
        if ('!' <= character && character <= '~') || character == ' ' {
            push_char(&mut displayed, character);
        } else {
            displayed.append("\\u{");
            let digits = hex(character as u32);
            displayed.append(digits.as_str());
            displayed.append("}");
        }
        i = i + 1;
    }
    if text.len() > MAX_DISPLAYED_CODE_CHARACTERS {
        displayed.append("...");
    } else {
        proof {
            assert(text@.subrange(0, text@.len() as int) =~= text@);
        }
    }
    displayed
}

/// The diagnostic for an unknown code, with the code shown safely and hints to the index.
pub fn unknown_code(code: &str) -> (error: Diagnostic)
    ensures
        error.code@ == "E_UNKNOWN_DIAGNOSTIC_CODE"@,
        error.message@ == "unknown ClipAsm diagnostic code `"@ + spec_display_code(code@) + "`"@,
        error.span.file@ == "<command-line>"@,
        error.notes@.len() == 2,
        error.notes@[0]@ == "check the code's spelling and run `clipasm explain E_UNKNOWN_DIAGNOSTIC_CODE` for details"@,
        error.notes@[1]@ == "diagnostic index: "@ + DIAGNOSTIC_INDEX_URL@,
{
    let displayed = safe_display_code(code);
    let mut message = String::from_str("unknown ClipAsm diagnostic code `");
    message.append(displayed.as_str());
    message.append("`");
    let mut index = String::from_str("diagnostic index: ");
    index.append(DIAGNOSTIC_INDEX_URL);
    Diagnostic::builtin(BuiltinDiagnostic::UnknownDiagnosticCode, message, SourceSpan::file_start("<command-line>"))
        .note(String::from_str("check the code's spelling and run `clipasm explain E_UNKNOWN_DIAGNOSTIC_CODE` for details"))
        .note(index)
}

} // verus!
