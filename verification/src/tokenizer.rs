//! Word extraction from codepoint sequences.
//!
//! A word is a maximal run of word characters; the scanner walks the
//! text left to right, emits each run with its span, and skips
//! everything between runs.

use vstd::prelude::*;
use vstd::slice::slice_to_vec;

use crate::chars::is_word_char;
use crate::chars::spec_is_word_char;

verus! {

/// One extracted word with its half-open span.
pub ghost struct WordSpan {
    pub word: Seq<char>,
    pub start: int,
    pub end: int,
}

/// Where the run of word characters beginning at `i` ends: the first
/// position at or after `i` holding no word character.
pub open spec fn run_end(s: Seq<char>, i: int) -> int
    decreases s.len() - i
    when 0 <= i <= s.len()
{
    if i >= s.len() {
        i
    } else if spec_is_word_char(s[i]) {
        run_end(s, i + 1)
    } else {
        i
    }
}

/// The run end lies between `i` and the end of the text, and past `i`
/// itself when a word character stands there.
pub proof fn lemma_run_end_bounds(s: Seq<char>, i: int)
    requires
        0 <= i <= s.len(),
    ensures
        i <= run_end(s, i) <= s.len(),
        i < s.len() && spec_is_word_char(s[i]) ==> i + 1 <= run_end(s, i),
    decreases s.len() - i,
{
    if i < s.len() && spec_is_word_char(s[i]) {
        lemma_run_end_bounds(s, i + 1);
    }
}

/// The words of `s` from position `i` on: for each maximal run of
/// word characters, its codepoints and its half-open span.
pub open spec fn words_from(s: Seq<char>, i: int) -> Seq<WordSpan>
    decreases s.len() - i
    when 0 <= i <= s.len()
    via words_from_decreases
{
    if i >= s.len() {
        Seq::empty()
    } else if !spec_is_word_char(s[i]) {
        words_from(s, i + 1)
    } else {
        seq![
            WordSpan { word: s.subrange(i, run_end(s, i)), start: i, end: run_end(s, i) },
        ] + words_from(s, run_end(s, i))
    }
}

#[via_fn]
proof fn words_from_decreases(s: Seq<char>, i: int) {
    if 0 <= i <= s.len() {
        lemma_run_end_bounds(s, i);
    }
}

/// All words of `s` in order of appearance.
pub open spec fn spec_extract_words(s: Seq<char>) -> Seq<WordSpan> {
    words_from(s, 0)
}

/// The view of an extracted entry list as word spans.
pub open spec fn view_words(v: Seq<(Vec<char>, usize, usize)>) -> Seq<WordSpan> {
    v.map_values(
        |t: (Vec<char>, usize, usize)|
            WordSpan { word: t.0@, start: t.1 as int, end: t.2 as int },
    )
}

/// Extract words from source text with their start and end indices.
pub fn extract_words(source: &[char]) -> (words: Vec<(Vec<char>, usize, usize)>)
    ensures
        view_words(words@) == spec_extract_words(source@),
{
    let mut words: Vec<(Vec<char>, usize, usize)> = Vec::new();
    let n = source.len();
    let mut i: usize = 0;

    proof {
        assert(view_words(words@) =~= Seq::<WordSpan>::empty());
    }

    while i < n
        invariant
            n == source@.len(),
            i <= n,
            view_words(words@) + words_from(source@, i as int) == spec_extract_words(source@),
        decreases n - i,
    {
        if !is_word_char(source[i]) {
            i = i + 1;
            continue;
        }

        // Found the start of a word; scan to the end of its run.
        let start = i;
        let mut k: usize = i;
        while k < n && is_word_char(source[k])
            invariant
                n == source@.len(),
                start <= k <= n,
                run_end(source@, start as int) == run_end(source@, k as int),
            decreases n - k,
        {
            k = k + 1;
        }
        let end = k;
        proof {
            assert(run_end(source@, end as int) == end);
            lemma_run_end_bounds(source@, start as int);
        }

        let word: Vec<char> = slice_to_vec(&source[start..end]);
        let entry = (word, start, end);
        proof {
            let ghost span = WordSpan {
                word: source@.subrange(start as int, end as int),
                start: start as int,
                end: end as int,
            };
            assert(view_words(words@.push(entry)) =~= view_words(words@) + seq![span]);
            assert(words_from(source@, start as int) == seq![span] + words_from(
                source@,
                end as int,
            ));
            assert((view_words(words@) + seq![span]) + words_from(source@, end as int)
                =~= view_words(words@) + (seq![span] + words_from(source@, end as int)));
        }
        words.push(entry);
        i = end;
    }

    words
}

/// Where the word containing position `c` begins: scan backward while
/// the previous codepoint is a word character.
pub open spec fn spec_word_start(s: Seq<char>, c: int) -> int
    decreases c
    when 0 <= c <= s.len()
{
    if c <= 0 || !spec_is_word_char(s[c - 1]) {
        c
    } else {
        spec_word_start(s, c - 1)
    }
}

/// The word start lies between zero and `c`.
pub proof fn lemma_word_start_bounds(s: Seq<char>, c: int)
    requires
        0 <= c <= s.len(),
    ensures
        0 <= spec_word_start(s, c) <= c,
    decreases c,
{
    if c > 0 && spec_is_word_char(s[c - 1]) {
        lemma_word_start_bounds(s, c - 1);
    }
}

/// Find where the word ending at `cursor` begins.
pub fn find_word_start(source: &[char], cursor: usize) -> (r: usize)
    requires
        cursor <= source@.len(),
    ensures
        r == spec_word_start(source@, cursor as int),
        r <= cursor,
{
    let mut ws: usize = cursor;
    while ws > 0 && is_word_char(source[ws - 1])
        invariant
            cursor <= source@.len(),
            ws <= cursor,
            spec_word_start(source@, cursor as int) == spec_word_start(source@, ws as int),
        decreases ws,
    {
        ws = ws - 1;
    }
    proof {
        lemma_word_start_bounds(source@, cursor as int);
    }
    ws
}

/// The boundaries of the word around position `idx`: scan backward
/// for its start and forward for its end.
pub fn word_bounds_at(source: &[char], idx: usize) -> (r: (usize, usize))
    requires
        idx <= source@.len(),
    ensures
        r.0 == spec_word_start(source@, idx as int),
        r.1 == run_end(source@, idx as int),
        r.0 <= idx <= r.1 <= source@.len(),
{
    let start = find_word_start(source, idx);
    let n = source.len();
    let mut k: usize = idx;
    while k < n && is_word_char(source[k])
        invariant
            n == source@.len(),
            idx <= k <= n,
            run_end(source@, idx as int) == run_end(source@, k as int),
        decreases n - k,
    {
        k = k + 1;
    }
    proof {
        lemma_run_end_bounds(source@, idx as int);
    }
    (start, k)
}

} // verus!
