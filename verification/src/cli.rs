//! The command line's own rules: binding arguments, terminal-safe display of
//! user text, project manifest validation, and render settings.

pub mod explain;
pub mod init;
pub mod project;
pub mod render_settings;

use vstd::prelude::*;

use crate::diagnostic::Diagnostic;
use crate::source::SourceSpan;
use crate::text::{push_char, to_chars};

verus! {

/// The position of the first `=` in `text`.
pub open spec fn spec_first_equals(text: Seq<char>) -> Option<int> {
    if exists|i: int| 0 <= i < text.len() && text[i] == '=' {
        Some(choose|i: int| 0 <= i < text.len() && text[i] == '=' && forall|j: int| 0 <= j < i ==> text[j] != '=')
    } else {
        None
    }
}

/// The diagnostic for a malformed `NAME=VALUE` command-line binding.
pub fn invalid_cli_binding(option: &str, message: &str, span: &SourceSpan) -> (error: Diagnostic)
    ensures
        error.code@ == "E_INVALID_CLI_BINDING"@,
        error.message@ == "invalid "@ + option@ + " binding: "@ + message@,
        error.span == *span,
{
    let mut text = String::from_str("invalid ");
    text.append(option);
    text.append(" binding: ");
    text.append(message);
    Diagnostic::new("E_INVALID_CLI_BINDING", text, span.clone_span())
}

/// Split a `NAME=VALUE` command-line binding at its first `=`.
///
/// Fails with `E_INVALID_CLI_BINDING` when there is no `=`, or when the name or the value is empty.
pub fn split_binding(value: &str, option: &str, span: &SourceSpan) -> (result: Result<(String, String), Diagnostic>)
    ensures
        match spec_first_equals(value@) {
            None => result matches Err(error) && error.code@ == "E_INVALID_CLI_BINDING"@
                && error.message@ == "invalid "@ + option@ + " binding: "@ + "expected NAME=VALUE"@,
            Some(i) => if i == 0 {
                result matches Err(error) && error.code@ == "E_INVALID_CLI_BINDING"@
                    && error.message@ == "invalid "@ + option@ + " binding: "@ + "binding name must not be empty"@
            } else if i == value@.len() - 1 {
                result matches Err(error) && error.code@ == "E_INVALID_CLI_BINDING"@
                    && error.message@ == "invalid "@ + option@ + " binding: "@ + "binding value must not be empty"@
            } else {
                result matches Ok(pair) && pair.0@ == value@.subrange(0, i) && pair.1@ == value@.subrange(i + 1, value@.len() as int)
            },
        },
{
    let text = to_chars(value);
    let mut i: usize = 0;
    while i < text.len() && text[i] != '='
        invariant
            i <= text@.len(),
            text@ == value@,
            forall|j: int| 0 <= j < i ==> text@[j] != '=',
        decreases text@.len() - i,
    {
        i = i + 1;
    }
    if i == text.len() {
        proof {
            assert(!exists|j: int| 0 <= j < value@.len() && value@[j] == '=');
        }
        return Err(invalid_cli_binding(option, "expected NAME=VALUE", span));
    }
    proof {
        assert(value@[i as int] == '=');
        assert(exists|j: int| 0 <= j < value@.len() && value@[j] == '=');
        let k = choose|k: int| 0 <= k < value@.len() && value@[k] == '=' && forall|j: int| 0 <= j < k ==> value@[j] != '=';
        assert(0 <= i < value@.len() && value@[i as int] == '=' && forall|j: int| 0 <= j < i ==> value@[j] != '=');
        assert(k == i as int);
    }
    if i == 0 {
        return Err(invalid_cli_binding(option, "binding name must not be empty", span));
    }
    if i == text.len() - 1 {
        return Err(invalid_cli_binding(option, "binding value must not be empty", span));
    }
    let mut name = String::new();
    let mut j: usize = 0;
    while j < i
        invariant
            j <= i,
            i < text@.len(),
            name@ == text@.subrange(0, j as int),
        decreases i - j,
    {
        push_char(&mut name, text[j]);
        j = j + 1;
        proof {
            assert(name@ =~= text@.subrange(0, j as int));
        }
    }
    let mut bound = String::new();
    let mut k: usize = i + 1;
    while k < text.len()
        invariant
            i < k <= text@.len(),
            bound@ == text@.subrange(i + 1, k as int),
        decreases text@.len() - k,
    {
        push_char(&mut bound, text[k]);
        k = k + 1;
        proof {
            assert(bound@ =~= text@.subrange(i + 1, k as int));
        }
    }
    Ok((name, bound))
}

/// Whether a character is a Unicode control character (general category Cc).
pub open spec fn spec_is_control(character: char) -> bool {
    character <= '\u{1F}' || ('\u{7F}' <= character && character <= '\u{9F}')
}

/// The uppercase hexadecimal digit of `digit`.
pub open spec fn spec_hex_digit(digit: u32) -> char {
    if digit < 10 { ((digit + 48) as u8) as char } else { ((digit + 55) as u8) as char }
}

/// The uppercase hexadecimal digits of `value`, without leading zeros.
pub open spec fn spec_hex(value: u32) -> Seq<char>
    decreases value,
{
    if value < 16 {
        seq![spec_hex_digit(value)]
    } else {
        spec_hex(value / 16).push(spec_hex_digit(value % 16))
    }
}

/// The uppercase hexadecimal digits of `value`, padded with zeros to at least four.
pub open spec fn spec_hex4(value: u32) -> Seq<char> {
    let digits = spec_hex(value);
    if digits.len() < 4 { Seq::new((4 - digits.len()) as nat, |i: int| '0') + digits } else { digits }
}

fn hex_digit(digit: u32) -> (character: char)
    requires
        digit < 16,
    ensures
        character == spec_hex_digit(digit),
{
    if digit < 10 { ((digit + 48) as u8) as char } else { ((digit + 55) as u8) as char }
}

/// Return the uppercase hexadecimal digits of `value`.
pub fn hex(value: u32) -> (text: String)
    ensures
        text@ == spec_hex(value),
    decreases value,
{
    if value < 16 {
        let mut text = String::new();
        push_char(&mut text, hex_digit(value));
        text
    } else {
        let mut text = hex(value / 16);
        push_char(&mut text, hex_digit(value % 16));
        text
    }
}

proof fn lemma_hex_len(value: u32)
    ensures
        1 <= spec_hex(value).len() <= 8,
        value < 0x10 ==> spec_hex(value).len() <= 1,
        value < 0x100 ==> spec_hex(value).len() <= 2,
        value < 0x1000 ==> spec_hex(value).len() <= 3,
        value < 0x1_0000 ==> spec_hex(value).len() <= 4,
        value < 0x10_0000 ==> spec_hex(value).len() <= 5,
        value < 0x100_0000 ==> spec_hex(value).len() <= 6,
        value < 0x1000_0000 ==> spec_hex(value).len() <= 7,
    decreases value,
{
    if value >= 16 {
        lemma_hex_len(value / 16);
    }
}

/// Return the uppercase hexadecimal digits of `value`, padded with zeros to at least four.
pub fn hex4(value: u32) -> (text: String)
    ensures
        text@ == spec_hex4(value),
{
    let digits = hex(value);
    let length = digits.unicode_len();
    proof {
        lemma_hex_len(value);
    }
    let mut text = String::new();
    let mut padding: usize = length;
    while padding < 4
        invariant
            length == spec_hex(value).len(),
            length <= padding <= 4 || (length > 4 && padding == length),
            text@ == Seq::new((padding - length) as nat, |i: int| '0'),
        decreases 4 - padding,
    {
        push_char(&mut text, '0');
        padding = padding + 1;
        proof {
            assert(text@ =~= Seq::new((padding - length) as nat, |i: int| '0'));
        }
    }
    text.append(digits.as_str());
    proof {
        if length >= 4 {
            assert(text@ =~= spec_hex(value));
        } else {
            assert(padding == 4);
        }
    }
    text
}

/// How one character is shown in the terminal: control characters as `\u{XXXX}`.
pub open spec fn spec_display_char(character: char) -> Seq<char> {
    if spec_is_control(character) { "\\u{"@ + spec_hex4(character as u32) + "}"@ } else { seq![character] }
}

/// How text is shown in the terminal, character by character.
pub open spec fn spec_display_text(text: Seq<char>) -> Seq<char>
    decreases text.len(),
{
    if text.len() == 0 {
        Seq::empty()
    } else {
        spec_display_text(text.drop_last()) + spec_display_char(text.last())
    }
}

/// Render user text for a terminal, escaping control characters as `\u{XXXX}`.
pub fn safe_display_text(value: &str) -> (displayed: String)
    ensures
        displayed@ == spec_display_text(value@),
{
    let text = to_chars(value);
    let mut displayed = String::new();
    let mut i: usize = 0;
    while i < text.len()
        invariant
            i <= text@.len(),
            text@ == value@,
            displayed@ == spec_display_text(text@.subrange(0, i as int)),
        decreases text@.len() - i,
    {
        proof {
            assert(text@.subrange(0, i + 1).drop_last() =~= text@.subrange(0, i as int));
        }
        let character = text[i];
        if character <= '\u{1F}' || ('\u{7F}' <= character && character <= '\u{9F}') {
            displayed.append("\\u{");
            let digits = hex4(character as u32);
            displayed.append(digits.as_str());
            displayed.append("}");
        } else {
            push_char(&mut displayed, character);
        }
        i = i + 1;
    }
    proof {
        assert(text@.subrange(0, text@.len() as int) =~= text@);
    }
    displayed
}

/// Whether a character is an uppercase hexadecimal digit.
pub open spec fn spec_is_hex_char(character: char) -> bool {
    ('0' <= character && character <= '9') || ('A' <= character && character <= 'F')
}

/// Hexadecimal text is made of hexadecimal digits.
pub(crate) proof fn lemma_hex_chars(value: u32)
    ensures
        forall|i: int| 0 <= i < spec_hex(value).len() ==> spec_is_hex_char(#[trigger] spec_hex(value)[i]),
    decreases value,
{
    let digit = spec_hex_digit(value % 16);
    assert(spec_is_hex_char(digit));
    if value >= 16 {
        lemma_hex_chars(value / 16);
        let digits = spec_hex(value);
        assert forall|i: int| 0 <= i < digits.len() implies spec_is_hex_char(#[trigger] digits[i]) by {
            if i < digits.len() - 1 {
                assert(digits[i] == spec_hex(value / 16)[i]);
            } else {
                assert(digits[i] == digit);
            }
        }
    } else {
        assert(value % 16 == value);
        assert(spec_hex(value)[0] == digit);
    }
}

/// Terminal display holds no control character: each one is shown by its `\u{XXXX}` escape
/// instead, and every other character as it is.
pub proof fn lemma_display_text_printable(text: Seq<char>)
    ensures
        forall|i: int| 0 <= i < spec_display_text(text).len() ==> !spec_is_control(#[trigger] spec_display_text(text)[i]),
    decreases text.len(),
{
    if text.len() > 0 {
        lemma_display_text_printable(text.drop_last());
        let c = text.last();
        let shown = spec_display_char(c);
        assert forall|i: int| 0 <= i < shown.len() implies !spec_is_control(#[trigger] shown[i]) by {
            if spec_is_control(c) {
                let digits = spec_hex(c as u32);
                lemma_hex_chars(c as u32);
                let padded = spec_hex4(c as u32);
                assert forall|j: int| 0 <= j < padded.len() implies !spec_is_control(#[trigger] padded[j]) by {
                    if digits.len() < 4 {
                        let zeros = (4 - digits.len()) as int;
                        if j >= zeros {
                            assert(padded[j] == digits[j - zeros]);
                        }
                    } else {
                        assert(padded[j] == digits[j]);
                    }
                }
                reveal_strlit("\\u{");
                reveal_strlit("}");
                if i >= 3 && i < 3 + padded.len() {
                    assert(shown[i] == padded[i - 3]);
                }
            }
        }
        let prefix = spec_display_text(text.drop_last());
        assert(spec_display_text(text) == prefix + shown);
        assert forall|i: int| 0 <= i < spec_display_text(text).len()
            implies !spec_is_control(#[trigger] spec_display_text(text)[i]) by {
            if i < prefix.len() {
                assert(spec_display_text(text)[i] == prefix[i]);
            } else {
                assert(spec_display_text(text)[i] == shown[i - prefix.len()]);
            }
        }
    }
}

/// Whether a path can be quoted for a POSIX shell as it stands: it does not end in a
/// backslash and holds no control character and none of `"`, `$`, backquote, `%`, `!`.
pub open spec fn spec_portable_shell_path(path: Seq<char>) -> bool {
    &&& !(path.len() > 0 && path.last() == '\\')
    &&& forall|i: int| 0 <= i < path.len() ==> {
        let c = #[trigger] path[i];
        !spec_is_control(c) && c != '"' && c != '$' && c != '`' && c != '%' && c != '!'
    }
}

/// Return the path when a shell can be told to `cd` into it by quoting it as it stands.
pub fn portable_shell_path(path: &str) -> (portable: Option<&str>)
    ensures
        spec_portable_shell_path(path@) ==> portable == Some(path),
        !spec_portable_shell_path(path@) ==> portable is None,
{
    let text = to_chars(path);
    if text.len() > 0 && text[text.len() - 1] == '\\' {
        return None;
    }
    let mut i: usize = 0;
    while i < text.len()
        invariant
            i <= text@.len(),
            text@ == path@,
            forall|j: int| 0 <= j < i ==> {
                let c = #[trigger] text@[j];
                !spec_is_control(c) && c != '"' && c != '$' && c != '`' && c != '%' && c != '!'
            },
        decreases text@.len() - i,
    {
        let c = text[i];
        if c <= '\u{1F}' || ('\u{7F}' <= c && c <= '\u{9F}') || c == '"' || c == '$' || c == '`' || c == '%' || c == '!' {
            return None;
        }
        i = i + 1;
    }
    Some(path)
}

} // verus!
