//! Codepoint-level classification and case folding.
//!
//! Everything the rest of the library needs to know about a single
//! codepoint lives here: ASCII case folding (modelled exactly), the
//! Unicode classifications that std computes from its tables (named
//! abstractly and obtained through trusted calls), UTF-16 unit widths,
//! and the word-character test for Polish text.

use vstd::prelude::*;
use vstd::string::StrSliceExecFns;

verus! {

/// Collect the codepoints of a string slice into a vector.
pub fn str_to_chars(s: &str) -> (v: Vec<char>)
    ensures
        v@ == s@,
{
    let len = s.unicode_len();
    let mut v: Vec<char> = Vec::new();
    let mut i: usize = 0;
    while i < len
        invariant
            len == s@.len(),
            i <= len,
            v@ == s@.take(i as int),
        decreases len - i,
    {
        let c = s.get_char(i);
        proof {
            assert(s@.take(i + 1) =~= s@.take(i as int).push(s@[i as int]));
        }
        v.push(c);
        i = i + 1;
    }
    proof {
        assert(s@.take(len as int) =~= s@);
    }
    v
}

// ---------------------------------------------------------------------------
// ASCII case folding, modelled exactly.
// ---------------------------------------------------------------------------

/// The codepoint with ASCII uppercase letters folded to lowercase.
/// This is exactly what `char::eq_ignore_ascii_case` compares by.
pub open spec fn ascii_fold(c: char) -> u32 {
    if 65 <= c as u32 && c as u32 <= 90 {
        ((c as u32) + 32) as u32
    } else {
        c as u32
    }
}

/// Two codepoints are equal up to ASCII case.
pub open spec fn ascii_eq(a: char, b: char) -> bool {
    ascii_fold(a) == ascii_fold(b)
}

/// Fold one codepoint: ASCII uppercase letters become lowercase,
/// everything else is returned as its scalar value.
pub fn ascii_fold_exec(c: char) -> (r: u32)
    ensures
        r == ascii_fold(c),
{
    let u = c as u32;
    if 65 <= u && u <= 90 {
        u + 32
    } else {
        u
    }
}

/// Compare two codepoints up to ASCII case.
pub fn ascii_eq_exec(a: char, b: char) -> (r: bool)
    ensures
        r == ascii_eq(a, b),
{
    ascii_fold_exec(a) == ascii_fold_exec(b)
}

// ---------------------------------------------------------------------------
// Unicode classifications from std's tables.
//
// The full Unicode case mapping and category tables are not restated
// here; each gets an abstract name, and a trusted call relates the
// name to what std computes. Every mapping below depends on the
// codepoint alone.
// ---------------------------------------------------------------------------

/// The sequence of codepoints that `char::to_lowercase` yields for `c`.
pub uninterp spec fn unicode_lower(c: char) -> Seq<char>;

/// Whether `char::is_uppercase` holds of `c`.
pub uninterp spec fn is_upper_char(c: char) -> bool;

/// The first codepoint that `char::to_uppercase` yields for `c`.
pub uninterp spec fn upper_first(c: char) -> char;

/// Whether `char::is_alphanumeric` holds of `c`.
pub uninterp spec fn is_alnum_char(c: char) -> bool;

/// Whether `char::is_whitespace` holds of `c`.
pub uninterp spec fn is_ws_char(c: char) -> bool;

/// Two codepoints are equal up to Unicode case: their full lowercase
/// mappings coincide.
pub open spec fn unicode_eq(a: char, b: char) -> bool {
    unicode_lower(a) == unicode_lower(b)
}

/// Relies on `char::to_lowercase`: the lowercase mapping of a codepoint
/// depends on that codepoint alone, so comparing the mappings of `a`
/// and `b` decides `unicode_eq(a, b)`.
#[verifier::external_body]
pub(crate) fn unicode_eq_exec(a: char, b: char) -> (r: bool)
    ensures
        r == (unicode_lower(a) == unicode_lower(b)),
{
    a.to_lowercase().eq(b.to_lowercase())
}

/// Relies on `char::is_uppercase`: whether a codepoint counts as
/// uppercase depends on that codepoint alone.
#[verifier::external_body]
pub(crate) fn is_upper_exec(c: char) -> (r: bool)
    ensures
        r == is_upper_char(c),
{
    c.is_uppercase()
}

/// Relies on `char::to_uppercase`: its yield depends on the input
/// codepoint alone and is never empty, so `next()` returns its first
/// codepoint.
#[verifier::external_body]
pub(crate) fn upper_first_exec(c: char) -> (r: char)
    ensures
        r == upper_first(c),
{
    c.to_uppercase().next().unwrap_or(c)
}

/// Relies on `char::is_alphanumeric`: a table lookup on the codepoint
/// alone.
#[verifier::external_body]
pub(crate) fn is_alnum_exec(c: char) -> (r: bool)
    ensures
        r == is_alnum_char(c),
{
    c.is_alphanumeric()
}

/// Relies on `char::is_whitespace`: a table lookup on the codepoint
/// alone.
#[verifier::external_body]
pub(crate) fn is_ws_exec(c: char) -> (r: bool)
    ensures
        r == is_ws_char(c),
{
    c.is_whitespace()
}

/// Relies on `String: FromIterator<char>` (`collect`): collecting
/// codepoints yields the string of exactly those codepoints.
#[verifier::external_body]
pub(crate) fn chars_to_string(v: &Vec<char>) -> (s: String)
    ensures
        s@ == v@,
{
    v.iter().collect()
}

// ---------------------------------------------------------------------------
// UTF-16 unit width, modelled exactly.
// ---------------------------------------------------------------------------

/// How many UTF-16 code units encode `c`: one inside the basic plane,
/// two outside it. This is exactly `char::len_utf16`.
pub open spec fn utf16_len(c: char) -> nat {
    if (c as u32) < 0x10000 {
        1
    } else {
        2
    }
}

/// Width of `c` in UTF-16 code units.
pub fn utf16_len_exec(c: char) -> (r: usize)
    ensures
        r == utf16_len(c),
{
    if (c as u32) < 0x10000 {
        1
    } else {
        2
    }
}

// ---------------------------------------------------------------------------
// Digits and word characters.
// ---------------------------------------------------------------------------

/// Whether `c` is an ASCII decimal digit.
pub open spec fn is_digit_char(c: char) -> bool {
    48 <= c as u32 && c as u32 <= 57
}

/// Test for an ASCII decimal digit.
pub fn is_digit_exec(c: char) -> (r: bool)
    ensures
        r == is_digit_char(c),
{
    let u = c as u32;
    48 <= u && u <= 57
}

/// The Polish diacritic letters, both cases.
pub open spec fn is_polish_letter(c: char) -> bool {
    c == 'ą' || c == 'ć' || c == 'ę' || c == 'ł' || c == 'ń' || c == 'ó' || c == 'ś' || c == 'ź'
        || c == 'ż' || c == 'Ą' || c == 'Ć' || c == 'Ę' || c == 'Ł' || c == 'Ń' || c == 'Ó'
        || c == 'Ś' || c == 'Ź' || c == 'Ż'
}

/// Whether `c` belongs to a word: alphanumeric, or one of the Polish
/// diacritic letters.
pub open spec fn spec_is_word_char(c: char) -> bool {
    is_alnum_char(c) || is_polish_letter(c)
}

/// Check if a character is part of a word (including Polish diacritics).
pub fn is_word_char(ch: char) -> (r: bool)
    ensures
        r == spec_is_word_char(ch),
{
    if is_alnum_exec(ch) {
        return true;
    }
    ch == 'ą' || ch == 'ć' || ch == 'ę' || ch == 'ł' || ch == 'ń' || ch == 'ó' || ch == 'ś'
        || ch == 'ź' || ch == 'ż' || ch == 'Ą' || ch == 'Ć' || ch == 'Ę' || ch == 'Ł' || ch == 'Ń'
        || ch == 'Ó' || ch == 'Ś' || ch == 'Ź' || ch == 'Ż'
}

} // verus!
