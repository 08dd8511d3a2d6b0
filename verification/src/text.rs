//! Character-level text helpers shared by validation and diagnostics.

use vstd::prelude::*;

verus! {

/// Return the characters of `text` in order.
pub fn to_chars(text: &str) -> (chars: Vec<char>)
    ensures
        chars@ == text@,
{
    let length = text.unicode_len();
    let mut chars: Vec<char> = Vec::new();
    let mut index: usize = 0;
    while index < length
        invariant
            length == text@.len(),
            index <= length,
            chars@ == text@.subrange(0, index as int),
        decreases length - index,
    {
        chars.push(text.get_char(index));
        index = index + 1;
        assert(chars@ =~= text@.subrange(0, index as int));
    }
    assert(chars@ =~= text@);
    chars
}

/// Compare two character sequences.
pub fn chars_eq(left: &Vec<char>, right: &Vec<char>) -> (equal: bool)
    ensures
        equal == (left@ == right@),
{
    if left.len() != right.len() {
        return false;
    }
    let mut index: usize = 0;
    while index < left.len()
        invariant
            left@.len() == right@.len(),
            index <= left@.len(),
            forall|j: int| 0 <= j < index ==> left@[j] == right@[j],
        decreases left@.len() - index,
    {
        if left[index] != right[index] {
            return false;
        }
        index = index + 1;
    }
    assert(left@ =~= right@);
    true
}

/// Compare two strings by their characters.
pub fn str_eq(left: &str, right: &str) -> (equal: bool)
    ensures
        equal == (left@ == right@),
{
    let left = to_chars(left);
    let right = to_chars(right);
    chars_eq(&left, &right)
}

/// Whether `suffix` ends `text`.
pub open spec fn spec_ends_with(text: Seq<char>, suffix: Seq<char>) -> bool {
    suffix.len() <= text.len() && text.subrange(text.len() - suffix.len(), text.len() as int) == suffix
}

/// Test whether `suffix` ends `text`.
pub fn chars_end_with(text: &Vec<char>, suffix: &Vec<char>) -> (result: bool)
    ensures
        result == spec_ends_with(text@, suffix@),
{
    if suffix.len() > text.len() {
        return false;
    }
    let offset = text.len() - suffix.len();
    let mut index: usize = 0;
    while index < suffix.len()
        invariant
            offset + suffix@.len() == text@.len(),
            text@.len() == text.len(),
            index <= suffix@.len(),
            forall|j: int| 0 <= j < index ==> text@[offset + j] == suffix@[j],
        decreases suffix@.len() - index,
    {
        if text[offset + index] != suffix[index] {
            assert(text@.subrange(offset as int, text@.len() as int)[index as int] != suffix@[index as int]);
            return false;
        }
        index = index + 1;
    }
    assert(text@.subrange(offset as int, text@.len() as int) =~= suffix@);
    true
}

/// Trusted: `String::push` appends one character; std documents that it
/// "appends the given char to the end of this String".
#[verifier::external_body]
pub(crate) fn push_char(text: &mut String, character: char)
    ensures
        final(text)@ == old(text)@.push(character),
{
    text.push(character);
}

} // verus!
