//! Which files are taken for images: those whose extension is one of the
//! accepted ones, whatever the case of its letters.

use vstd::prelude::*;
use vstd::string::StrSliceExecFns;

verus! {

/// `given` is `letter`, or the upper-case ASCII letter that `letter` is the
/// lower case of.
pub open spec fn folds_to(given: char, letter: char) -> bool {
    given == letter || ('A' <= given <= 'Z' && given as int + 32 == letter as int)
}

/// `text` is `word` but for the case of ASCII letters.
pub open spec fn same_ignoring_case(text: Seq<char>, word: Seq<char>) -> bool {
    &&& text.len() == word.len()
    &&& forall|i: int| 0 <= i < text.len() ==> folds_to(#[trigger] text[i], word[i])
}

/// The extension is one of `jpg`, `jpeg`, `png` and `webp`, in any case.
pub open spec fn is_image_extension(extension: Seq<char>) -> bool {
    ||| same_ignoring_case(extension, "jpg"@)
    ||| same_ignoring_case(extension, "jpeg"@)
    ||| same_ignoring_case(extension, "png"@)
    ||| same_ignoring_case(extension, "webp"@)
}

fn folds(given: char, letter: char) -> (same: bool)
    ensures
        same == folds_to(given, letter),
{
    let code: u32 = given as u32;
    given == letter || (65 <= code && code <= 90 && code + 32 == letter as u32)
}

/// Compares a text with a word without regard to the case of ASCII
/// letters.
pub fn matches_ignoring_case(text: &str, word: &str) -> (same: bool)
    ensures
        same == same_ignoring_case(text@, word@),
{
    let length: usize = word.unicode_len();
    if text.unicode_len() != length {
        return false;
    }
    let mut i: usize = 0;
    while i < length
        invariant
            0 <= i <= length,
            length == word@.len(),
            length == text@.len(),
            forall|j: int| 0 <= j < i ==> folds_to(#[trigger] text@[j], word@[j]),
        decreases length - i,
    {
        if !folds(text.get_char(i), word.get_char(i)) {
            return false;
        }
        i = i + 1;
    }
    true
}

/// Whether a file with the given extension, if it has one, is taken for an
/// image. A file without an extension is not.
pub fn is_image_file(extension: Option<&str>) -> (accepted: bool)
    ensures
        accepted == match extension {
            Some(text) => is_image_extension(text@),
            None => false,
        },
{
    match extension {
        Some(text) => matches_ignoring_case(text, "jpg") || matches_ignoring_case(text, "jpeg")
            || matches_ignoring_case(text, "png") || matches_ignoring_case(text, "webp"),
        None => false,
    }
}

} // verus!
