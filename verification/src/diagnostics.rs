//! Spell-check analysis: which words of a text the dictionary does
//! not know.
//!
//! A word is reported when it is at least three codepoints long, not
//! purely numeric, and absent from the store. The caller turns each
//! reported span into a diagnostic record for presentation.

use vstd::prelude::*;
use vstd::slice::slice_to_vec;

use crate::chars::is_digit_char;
use crate::chars::is_digit_exec;
use crate::dictionary::DictEntry;
use crate::dictionary::Dictionary;
use crate::dictionary::spec_contains;
use crate::tokenizer::WordSpan;
use crate::tokenizer::extract_words;
use crate::tokenizer::spec_extract_words;
use crate::tokenizer::view_words;

verus! {

/// Whether every codepoint is an ASCII decimal digit.
pub open spec fn is_all_digits(s: Seq<char>) -> bool {
    forall|k: int| 0 <= k < s.len() ==> is_digit_char(#[trigger] s[k])
}

/// Test whether a word is purely numeric.
pub fn all_digits(w: &[char]) -> (r: bool)
    ensures
        r == is_all_digits(w@),
{
    let n = w.len();
    let mut i: usize = 0;
    while i < n
        invariant
            n == w@.len(),
            i <= n,
            forall|k: int| 0 <= k < i ==> is_digit_char(#[trigger] w@[k]),
        decreases n - i,
    {
        if !is_digit_exec(w[i]) {
            assert(!is_digit_char(w@[i as int]));
            return false;
        }
        i = i + 1;
    }
    true
}

/// Whether one word is reported: long enough, not numeric, unknown.
pub open spec fn is_reportable(w: WordSpan, entries: Seq<DictEntry>) -> bool {
    w.word.len() >= 3 && !is_all_digits(w.word) && !spec_contains(entries, w.word)
}

/// The reportable words among `ws`, in order.
pub open spec fn spec_unknown_words(ws: Seq<WordSpan>, entries: Seq<DictEntry>) -> Seq<WordSpan>
    decreases ws.len(),
{
    if ws.len() == 0 {
        Seq::empty()
    } else {
        let head: Seq<WordSpan> = if is_reportable(ws[0], entries) {
            seq![ws[0]]
        } else {
            Seq::empty()
        };
        head + spec_unknown_words(ws.drop_first(), entries)
    }
}

/// Extract the words of `source` that the dictionary does not know,
/// with their spans: those at least three codepoints long and not
/// purely numeric.
pub fn find_unknown_words<D: Dictionary>(dict: &D, source: &[char]) -> (r: Vec<
    (Vec<char>, usize, usize),
>)
    ensures
        view_words(r@) == spec_unknown_words(spec_extract_words(source@), dict.entries()),
{
    let words = extract_words(source);
    let ghost ws = spec_extract_words(source@);
    let ghost entries = dict.entries();

    let n = words.len();
    let mut r: Vec<(Vec<char>, usize, usize)> = Vec::new();
    let mut i: usize = 0;
    proof {
        assert(ws.skip(0) =~= ws);
        assert(view_words(r@) + spec_unknown_words(ws, entries) =~= spec_unknown_words(
            ws,
            entries,
        ));
    }
    while i < n
        invariant
            n == words@.len(),
            view_words(words@) == ws,
            entries == dict.entries(),
            i <= n,
            view_words(r@) + spec_unknown_words(ws.skip(i as int), entries) == spec_unknown_words(
                ws,
                entries,
            ),
        decreases n - i,
    {
        proof {
            assert(ws.skip(i as int)[0] == ws[i as int]);
            assert(ws.skip(i as int).drop_first() =~= ws.skip(i + 1));
        }
        let ghost tail = spec_unknown_words(ws.skip(i + 1), entries);
        let w = &words[i];
        let report = if w.0.len() < 3 {
            false
        } else if all_digits(w.0.as_slice()) {
            false
        } else {
            !dict.contains(w.0.as_slice())
        };
        proof {
            assert(words@[i as int].0@ == ws[i as int].word);
            assert(report == is_reportable(ws[i as int], entries));
        }
        if report {
            let entry = (slice_to_vec(w.0.as_slice()), w.1, w.2);
            proof {
                assert(view_words(r@.push(entry)) =~= view_words(r@) + seq![ws[i as int]]);
                assert((view_words(r@) + seq![ws[i as int]]) + tail =~= view_words(r@) + (seq![
                    ws[i as int],
                ] + tail));
            }
            r.push(entry);
        } else {
            proof {
                assert(Seq::<WordSpan>::empty() + tail =~= tail);
            }
        }
        i = i + 1;
    }
    proof {
        assert(ws.skip(n as int) =~= Seq::<WordSpan>::empty());
        assert(view_words(r@) + Seq::<WordSpan>::empty() =~= view_words(r@));
    }
    r
}

} // verus!
