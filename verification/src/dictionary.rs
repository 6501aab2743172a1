//! The dictionary store: an insertion-ordered word list with
//! case-insensitive lookup, idempotent append, word-list parsing and
//! bounded fuzzy matching.

use vstd::prelude::*;
use vstd::slice::slice_to_vec;

use crate::chars::is_ws_char;
use crate::chars::is_ws_exec;
use crate::chars::str_to_chars;
use crate::chars::unicode_eq;
use crate::chars::unicode_eq_exec;
use crate::distance::clamp_cap;
use crate::distance::edit_distance;
use crate::distance::levenshtein_distance;

verus! {

// ---------------------------------------------------------------------------
// Entries and views.
// ---------------------------------------------------------------------------

/// One stored word with its commonality flag.
pub ghost struct DictEntry {
    pub word: Seq<char>,
    pub common: bool,
}

/// Result of a fuzzy match operation.
pub struct FuzzyMatchResult {
    pub word: Vec<char>,
    pub edit_distance: u8,
    pub is_common: bool,
}

/// The mathematical content of a fuzzy match result.
pub ghost struct MatchView {
    pub word: Seq<char>,
    pub edit_distance: u8,
    pub is_common: bool,
}

impl View for FuzzyMatchResult {
    type V = MatchView;

    open spec fn view(&self) -> MatchView {
        MatchView { word: self.word@, edit_distance: self.edit_distance, is_common: self.is_common }
    }
}

/// A match list seen as its mathematical content.
pub open spec fn view_matches(v: Seq<FuzzyMatchResult>) -> Seq<MatchView> {
    v.map_values(|m: FuzzyMatchResult| m@)
}

// ---------------------------------------------------------------------------
// Case-insensitive word equality.
// ---------------------------------------------------------------------------

/// Two words are equal case-insensitively: same length, and the
/// codepoints case-fold equal pairwise.
pub open spec fn words_eq_ci(a: Seq<char>, b: Seq<char>) -> bool {
    a.len() == b.len() && forall|i: int| 0 <= i < a.len() ==> unicode_eq(a[i], b[i])
}

/// Compare two words case-insensitively.
pub fn chars_eq_ci(a: &[char], b: &[char]) -> (r: bool)
    ensures
        r == words_eq_ci(a@, b@),
{
    if a.len() != b.len() {
        return false;
    }
    let n = a.len();
    let mut i: usize = 0;
    while i < n
        invariant
            n == a@.len() == b@.len(),
            i <= n,
            forall|k: int| 0 <= k < i ==> unicode_eq(a@[k], b@[k]),
        decreases n - i,
    {
        if !unicode_eq_exec(a[i], b[i]) {
            assert(!unicode_eq(a@[i as int], b@[i as int]));
            return false;
        }
        i = i + 1;
    }
    true
}

/// Whether some entry equals `w` case-insensitively.
pub open spec fn spec_contains(entries: Seq<DictEntry>, w: Seq<char>) -> bool {
    exists|i: int| 0 <= i < entries.len() && words_eq_ci(#[trigger] entries[i].word, w)
}

/// What appending a word leaves behind: the store unchanged when the
/// word is already present, else the store with the entry at the end.
pub open spec fn spec_add_word(entries: Seq<DictEntry>, w: Seq<char>, common: bool) -> Seq<
    DictEntry,
> {
    if spec_contains(entries, w) {
        entries
    } else {
        entries.push(DictEntry { word: w, common })
    }
}

/// Appending the same word twice changes nothing after the first
/// time, whatever commonality flags the two calls carry.
pub proof fn lemma_add_word_idempotent(
    entries: Seq<DictEntry>,
    w: Seq<char>,
    c1: bool,
    c2: bool,
)
    ensures
        spec_add_word(spec_add_word(entries, w, c1), w, c2) == spec_add_word(entries, w, c1),
{
    let once = spec_add_word(entries, w, c1);
    if spec_contains(entries, w) {
        assert(once == entries);
    } else {
        let i = once.len() - 1;
        assert(words_eq_ci(once[i].word, w));
        assert(spec_contains(once, w));
    }
}

// ---------------------------------------------------------------------------
// Word-list text.
//
// One entry per line; blank lines and lines whose trimmed form starts
// with `#` are ignored; a leading `*` on the trimmed form marks the
// entry common and is stripped.
// ---------------------------------------------------------------------------

/// First position at or after `i` holding a line break.
pub open spec fn line_end(s: Seq<char>, i: int) -> int
    decreases s.len() - i
    when 0 <= i <= s.len()
{
    if i >= s.len() {
        i
    } else if s[i] == '\n' {
        i
    } else {
        line_end(s, i + 1)
    }
}

/// The line break position lies between `i` and the end.
pub proof fn lemma_line_end_bounds(s: Seq<char>, i: int)
    requires
        0 <= i <= s.len(),
    ensures
        i <= line_end(s, i) <= s.len(),
    decreases s.len() - i,
{
    if i < s.len() && s[i] != '\n' {
        lemma_line_end_bounds(s, i + 1);
    }
}

/// First non-whitespace position at or after `i`.
pub open spec fn skip_ws(s: Seq<char>, i: int) -> int
    decreases s.len() - i
    when 0 <= i <= s.len()
{
    if i >= s.len() {
        i
    } else if is_ws_char(s[i]) {
        skip_ws(s, i + 1)
    } else {
        i
    }
}

/// Scan backward from `j` past whitespace, not below `f`.
pub open spec fn back_ws(s: Seq<char>, f: int, j: int) -> int
    decreases j - f
    when 0 <= f <= j <= s.len()
{
    if j <= f || !is_ws_char(s[j - 1]) {
        j
    } else {
        back_ws(s, f, j - 1)
    }
}

/// The line with leading and trailing whitespace removed.
pub open spec fn trim_ws(line: Seq<char>) -> Seq<char> {
    let a = skip_ws(line, 0);
    let b = back_ws(line, a, line.len() as int);
    line.subrange(a, b)
}

/// The entry one line contributes, if any: nothing for a blank or
/// comment line, a common entry for a starred line, an uncommon one
/// otherwise.
pub open spec fn entry_of_line(line: Seq<char>) -> Option<DictEntry> {
    let t = trim_ws(line);
    if t.len() == 0 {
        None
    } else if t[0] == '#' {
        None
    } else if t[0] == '*' {
        Some(DictEntry { word: t.drop_first(), common: true })
    } else {
        Some(DictEntry { word: t, common: false })
    }
}

/// Entries contributed by the lines from position `i` on.
pub open spec fn entries_from(s: Seq<char>, i: int) -> Seq<DictEntry>
    decreases s.len() + 1 - i
    when 0 <= i <= s.len() + 1
    via entries_from_decreases
{
    if i > s.len() {
        Seq::empty()
    } else {
        let e = line_end(s, i);
        let head: Seq<DictEntry> = match entry_of_line(s.subrange(i, e)) {
            Some(en) => seq![en],
            None => Seq::empty(),
        };
        head + entries_from(s, e + 1)
    }
}

#[via_fn]
proof fn entries_from_decreases(s: Seq<char>, i: int) {
    if 0 <= i <= s.len() {
        lemma_line_end_bounds(s, i);
    }
}

/// Every entry a word-list text contributes, in line order.
pub open spec fn word_list_entries(s: Seq<char>) -> Seq<DictEntry> {
    entries_from(s, 0)
}

/// The built-in baseline word list, one word per line, `*` marking
/// common words.
pub const BASELINE_TEXT: &'static str = "# polski\n*dzień\n*dobry\n*dobrze\n*tak\n*nie\n*jest\n*czas\n*dom\n*rok\ndziecko\ndzisiaj\ncześć\nświat\nsłowo\nsłownik\njęzyk\npolski\nżółty\nżółw\nźle\nłatwo\nproszę\nwitaj\nmiłość\npraca\nwoda\nziemia\nksiążka\nszkoła\npisać\nczytać\nmówić\nrozumieć\ndziękuję\nogień\nserce\nnoc\nranek\nwieczór";

/// The baseline text as a codepoint sequence.
pub open spec fn baseline_word_list() -> Seq<char> {
    BASELINE_TEXT@
}

// ---------------------------------------------------------------------------
// Ranking and stable sorting of matches.
//
// Matches are ordered by edit distance ascending, then common words
// before uncommon ones; ties keep their relative order. The rank
// below encodes that key in one integer, and the sort is the stable
// insertion sort: each element goes after everything already placed
// whose rank is no greater.
// ---------------------------------------------------------------------------

/// The sort key of a match: distance first, then commonality.
pub open spec fn match_rank(m: MatchView) -> int {
    2 * (m.edit_distance as int) + if m.is_common {
        0int
    } else {
        1int
    }
}

/// Every pair of positions is ordered by rank.
pub open spec fn sorted_by_rank(s: Seq<MatchView>) -> bool {
    forall|i: int, j: int| 0 <= i < j < s.len() ==> match_rank(s[i]) <= match_rank(s[j])
}

/// `x` placed after every leading element whose rank is no greater.
pub open spec fn insert_sorted(x: MatchView, s: Seq<MatchView>) -> Seq<MatchView>
    decreases s.len(),
{
    if s.len() == 0 {
        seq![x]
    } else if match_rank(s[0]) <= match_rank(x) {
        seq![s[0]] + insert_sorted(x, s.drop_first())
    } else {
        seq![x] + s
    }
}

/// The stable sort by rank: insert each element, in order of
/// appearance, after its equals.
pub open spec fn sort_matches(s: Seq<MatchView>) -> Seq<MatchView>
    decreases s.len(),
{
    if s.len() == 0 {
        Seq::empty()
    } else {
        insert_sorted(s.last(), sort_matches(s.drop_last()))
    }
}

/// Inserting at the position that a forward scan finds — just past
/// the leading elements of no greater rank — is what `insert_sorted`
/// means.
proof fn lemma_insert_sorted_at(x: MatchView, s: Seq<MatchView>, pos: int)
    requires
        0 <= pos <= s.len(),
        forall|k: int| 0 <= k < pos ==> match_rank(s[k]) <= match_rank(x),
        pos == s.len() || match_rank(s[pos]) > match_rank(x),
    ensures
        insert_sorted(x, s) == s.insert(pos, x),
    decreases pos,
{
    if pos == 0 {
        if s.len() == 0 {
            assert(insert_sorted(x, s) =~= s.insert(0, x));
        } else {
            assert(seq![x] + s =~= s.insert(0, x));
        }
    } else {
        lemma_insert_sorted_at(x, s.drop_first(), pos - 1);
        assert(seq![s[0]] + s.drop_first().insert(pos - 1, x) =~= s.insert(pos, x));
    }
}

/// A rank bound on a list and on the inserted element carries over to
/// the insertion's result; the result holds one more element.
proof fn lemma_insert_sorted_rank_lb(x: MatchView, s: Seq<MatchView>, lo: int)
    requires
        lo <= match_rank(x),
        forall|k: int| 0 <= k < s.len() ==> lo <= match_rank(#[trigger] s[k]),
    ensures
        insert_sorted(x, s).len() == s.len() + 1,
        forall|k: int|
            0 <= k < insert_sorted(x, s).len() ==> lo <= match_rank(
                #[trigger] insert_sorted(x, s)[k],
            ),
    decreases s.len(),
{
    if s.len() > 0 && match_rank(s[0]) <= match_rank(x) {
        lemma_insert_sorted_rank_lb(x, s.drop_first(), lo);
    }
}

/// Insertion keeps a list sorted.
proof fn lemma_insert_sorted_sorted(x: MatchView, s: Seq<MatchView>)
    requires
        sorted_by_rank(s),
    ensures
        sorted_by_rank(insert_sorted(x, s)),
        insert_sorted(x, s).len() == s.len() + 1,
    decreases s.len(),
{
    if s.len() == 0 {
    } else if match_rank(s[0]) <= match_rank(x) {
        let rest = s.drop_first();
        assert(sorted_by_rank(rest)) by {
            assert(forall|i: int, j: int|
                0 <= i < j < rest.len() ==> match_rank(#[trigger] rest[i]) <= match_rank(
                    #[trigger] rest[j],
                ));
        }
        lemma_insert_sorted_sorted(x, rest);
        let lo = match_rank(s[0]);
        assert(forall|k: int| 0 <= k < rest.len() ==> lo <= match_rank(#[trigger] rest[k]));
        lemma_insert_sorted_rank_lb(x, rest, lo);
        let r = seq![s[0]] + insert_sorted(x, rest);
        assert(forall|i: int, j: int|
            0 <= i < j < r.len() ==> match_rank(#[trigger] r[i]) <= match_rank(#[trigger] r[j]));
    } else {
        let r = seq![x] + s;
        assert(forall|i: int, j: int|
            0 <= i < j < r.len() ==> match_rank(#[trigger] r[i]) <= match_rank(#[trigger] r[j]));
    }
}

/// The stable sort sorts, and keeps the length.
pub proof fn lemma_sort_matches_sorted(s: Seq<MatchView>)
    ensures
        sorted_by_rank(sort_matches(s)),
        sort_matches(s).len() == s.len(),
    decreases s.len(),
{
    if s.len() > 0 {
        lemma_sort_matches_sorted(s.drop_last());
        lemma_insert_sorted_sorted(s.last(), sort_matches(s.drop_last()));
    }
}

// ---------------------------------------------------------------------------
// Fuzzy matching.
// ---------------------------------------------------------------------------

/// The entries within `maxd` of the query, in store order, each with
/// its clamped distance.
pub open spec fn matches_of(entries: Seq<DictEntry>, p: Seq<char>, maxd: u8) -> Seq<MatchView>
    decreases entries.len(),
{
    if entries.len() == 0 {
        Seq::empty()
    } else {
        let d = clamp_cap(edit_distance(p, entries[0].word));
        let head: Seq<MatchView> = if d <= maxd {
            seq![
                MatchView {
                    word: entries[0].word,
                    edit_distance: d as u8,
                    is_common: entries[0].common,
                },
            ]
        } else {
            Seq::empty()
        };
        head + matches_of(entries.drop_first(), p, maxd)
    }
}

/// A list cut to at most `n` entries.
pub open spec fn truncated(s: Seq<MatchView>, n: int) -> Seq<MatchView> {
    if s.len() <= n {
        s
    } else {
        s.take(n)
    }
}

/// What a fuzzy query returns: the close-enough entries, stably
/// sorted by rank, cut to the requested count.
pub open spec fn spec_fuzzy_match(
    entries: Seq<DictEntry>,
    p: Seq<char>,
    maxd: u8,
    maxr: int,
) -> Seq<MatchView> {
    truncated(sort_matches(matches_of(entries, p, maxd)), maxr)
}

/// The sort key of one match.
fn rank_exec(m: &FuzzyMatchResult) -> (r: u16)
    ensures
        r as int == match_rank(m@),
{
    2 * (m.edit_distance as u16) + if m.is_common {
        0
    } else {
        1
    }
}

/// Stable insertion sort of matches by rank.
fn sort_fuzzy_matches(input: Vec<FuzzyMatchResult>) -> (r: Vec<FuzzyMatchResult>)
    ensures
        view_matches(r@) == sort_matches(view_matches(input@)),
{
    let ghost orig = input@;
    let ghost vw = view_matches(orig);
    let mut rest = input;
    let mut out: Vec<FuzzyMatchResult> = Vec::new();

    proof {
        assert(view_matches(out@) =~= sort_matches(vw.take(0)));
    }

    while rest.len() > 0
        invariant
            rest@.len() <= orig.len(),
            rest@ == orig.skip(orig.len() - rest@.len()),
            vw == view_matches(orig),
            view_matches(out@) == sort_matches(vw.take(orig.len() - rest@.len())),
        decreases rest@.len(),
    {
        let ghost done = orig.len() - rest@.len();
        let x = rest.remove(0);
        proof {
            assert(orig.skip(done).remove(0) =~= orig.skip(done + 1));
            assert(x == orig.skip(done)[0]);
            assert(x == orig[done]);
        }

        let rx = rank_exec(&x);
        let mut pos: usize = 0;
        while pos < out.len() && rank_exec(&out[pos]) <= rx
            invariant
                pos <= out@.len(),
                rx as int == match_rank(x@),
                forall|k: int| 0 <= k < pos ==> match_rank(view_matches(out@)[k]) <= match_rank(
                    x@,
                ),
            decreases out@.len() - pos,
        {
            pos = pos + 1;
        }

        proof {
            lemma_insert_sorted_at(x@, view_matches(out@), pos as int);
        }
        let ghost out_before = out@;
        out.insert(pos, x);
        proof {
            assert(view_matches(out@) =~= view_matches(out_before).insert(pos as int, x@));
            assert(vw.take(done + 1).drop_last() =~= vw.take(done));
            assert(vw.take(done + 1).last() == x@);
            assert(view_matches(out@) == sort_matches(vw.take(done + 1)));
        }
    }

    proof {
        assert(vw.take(orig.len() as int) =~= vw);
    }
    out
}

// ---------------------------------------------------------------------------
// The store.
// ---------------------------------------------------------------------------

/// Simple in-memory dictionary implementation.
pub struct SimpleDictionary {
    words: Vec<(Vec<char>, bool)>,  // (word, is_common)
}

impl View for SimpleDictionary {
    type V = Seq<DictEntry>;

    closed spec fn view(&self) -> Seq<DictEntry> {
        self.words@.map_values(|t: (Vec<char>, bool)| DictEntry { word: t.0@, common: t.1 })
    }
}

impl SimpleDictionary {
    /// Create a new empty dictionary.
    pub fn new() -> (r: Self)
        ensures
            r@ == Seq::<DictEntry>::empty(),
    {
        let r = Self { words: Vec::new() };
        proof {
            assert(r@ =~= Seq::<DictEntry>::empty());
        }
        r
    }

    /// How many entries the store holds.
    pub fn len(&self) -> (r: usize)
        ensures
            r == self@.len(),
    {
        self.words.len()
    }

    /// Add a word to the dictionary unless it is already present
    /// (case-insensitively); adding again is a no-op.
    pub fn add_word(&mut self, word: &str, is_common: bool)
        ensures
            final(self)@ == spec_add_word(old(self)@, word@, is_common),
    {
        let chars = str_to_chars(word);
        if self.contains(chars.as_slice()) {
            return;
        }
        proof {
            assert(self@.push(DictEntry { word: word@, common: is_common }) =~= self.words@.push(
                (chars, is_common),
            ).map_values(|t: (Vec<char>, bool)| DictEntry { word: t.0@, common: t.1 }));
        }
        self.words.push((chars, is_common));
    }

    /// Parse words from text content (one word per line, `*` prefix =
    /// common, `#` prefix = comment); each accepted line appends one
    /// entry in order.
    pub fn parse_word_list(&mut self, content: &str)
        ensures
            final(self)@ == old(self)@ + word_list_entries(content@),
    {
        let ghost s = content@;
        let chars = str_to_chars(content);
        let src = chars.as_slice();
        let n = src.len();
        let mut i: usize = 0;

        proof {
            assert(self@ + entries_from(s, 0) =~= old(self)@ + word_list_entries(s));
        }

        loop
            invariant_except_break
                self@ + entries_from(s, i as int) == old(self)@ + word_list_entries(s),
            invariant
                src@ == s,
                n == s.len(),
                i <= n,
            ensures
                self@ == old(self)@ + word_list_entries(s),
            decreases n - i,
        {
            // Find the end of the line starting at `i`.
            let mut k: usize = i;
            while k < n && src[k] != '\n'
                invariant
                    src@ == s,
                    n == s.len(),
                    i <= k <= n,
                    line_end(s, i as int) == line_end(s, k as int),
                decreases n - k,
            {
                k = k + 1;
            }
            let e = k;
            let ghost line = s.subrange(i as int, e as int);
            proof {
                assert(line_end(s, i as int) == e);
            }

            // Trim leading whitespace.
            let mut ts: usize = i;
            while ts < e && is_ws_exec(src[ts])
                invariant
                    src@ == s,
                    n == s.len(),
                    e <= n,
                    i <= ts <= e,
                    line == s.subrange(i as int, e as int),
                    skip_ws(line, 0) == skip_ws(line, ts - i),
                decreases e - ts,
            {
                ts = ts + 1;
            }
            let ghost a = ts - i;
            proof {
                assert(skip_ws(line, 0) == a);
            }

            // Trim trailing whitespace.
            let mut te: usize = e;
            while te > ts && is_ws_exec(src[te - 1])
                invariant
                    src@ == s,
                    n == s.len(),
                    e <= n,
                    i <= ts <= te <= e,
                    a == ts - i,
                    line == s.subrange(i as int, e as int),
                    back_ws(line, a, line.len() as int) == back_ws(line, a, te - i),
                decreases te,
            {
                te = te - 1;
            }
            let ghost b = te - i;
            proof {
                assert(back_ws(line, a, line.len() as int) == b);
                assert(trim_ws(line) =~= s.subrange(ts as int, te as int));
            }

            let ghost head: Seq<DictEntry> = match entry_of_line(line) {
                Some(en) => seq![en],
                None => Seq::<DictEntry>::empty(),
            };
            proof {
                assert(entries_from(s, i as int) == head + entries_from(s, e + 1));
            }
            let ghost before = self@;

            if ts == te {
                proof {
                    assert(trim_ws(line).len() == 0);
                    assert(head =~= Seq::<DictEntry>::empty());
                }
            } else {
                let c0 = src[ts];
                proof {
                    assert(c0 == trim_ws(line)[0]);
                }
                if c0 == '#' {
                    proof {
                        assert(head =~= Seq::<DictEntry>::empty());
                    }
                } else if c0 == '*' {
                    let w = slice_to_vec(&src[ts + 1..te]);
                    let entry = (w, true);
                    proof {
                        assert(trim_ws(line).drop_first() =~= s.subrange(ts + 1, te as int));
                        assert(before.push(
                            DictEntry { word: s.subrange(ts + 1, te as int), common: true },
                        ) =~= self.words@.push(entry).map_values(
                            |t: (Vec<char>, bool)| DictEntry { word: t.0@, common: t.1 },
                        ));
                    }
                    self.words.push(entry);
                } else {
                    let w = slice_to_vec(&src[ts..te]);
                    let entry = (w, false);
                    proof {
                        assert(before.push(
                            DictEntry { word: s.subrange(ts as int, te as int), common: false },
                        ) =~= self.words@.push(entry).map_values(
                            |t: (Vec<char>, bool)| DictEntry { word: t.0@, common: t.1 },
                        ));
                    }
                    self.words.push(entry);
                }
            }

            proof {
                assert(self@ =~= before + head);
                assert((before + head) + entries_from(s, e + 1) =~= before + (head + entries_from(
                    s,
                    e + 1,
                )));
            }

            if e == n {
                proof {
                    assert(entries_from(s, e + 1) =~= Seq::<DictEntry>::empty());
                    assert(self@ + Seq::<DictEntry>::empty() =~= self@);
                }
                break;
            }
            i = e + 1;
        }
    }

    /// Load the built-in baseline dictionary.
    pub fn embedded() -> (r: Self)
        ensures
            r@ == word_list_entries(baseline_word_list()),
    {
        let mut dict = Self::new();
        dict.parse_word_list(BASELINE_TEXT);
        proof {
            assert(Seq::<DictEntry>::empty() + word_list_entries(baseline_word_list())
                =~= word_list_entries(baseline_word_list()));
        }
        dict
    }
}

impl Default for SimpleDictionary {
    /// The default dictionary is empty.
    fn default() -> (r: Self)
        ensures
            r@ == Seq::<DictEntry>::empty(),
    {
        Self::new()
    }
}

/// Trait for dictionary implementations that support fuzzy matching.
pub trait Dictionary {
    /// The stored entries, in insertion order.
    spec fn entries(&self) -> Seq<DictEntry>;

    /// Check if a word exists in the dictionary (case-insensitive).
    fn contains(&self, word: &[char]) -> (r: bool)
        ensures
            r == spec_contains(self.entries(), word@),
    ;

    /// Find words matching the prefix within the given edit distance:
    /// every entry within it, sorted by distance then commonality,
    /// cut to `max_results`.
    fn fuzzy_match(&self, prefix: &[char], max_edit_distance: u8, max_results: usize) -> (r: Vec<
        FuzzyMatchResult,
    >)
        ensures
            view_matches(r@) == spec_fuzzy_match(
                self.entries(),
                prefix@,
                max_edit_distance,
                max_results as int,
            ),
            sorted_by_rank(view_matches(r@)),
            r@.len() <= max_results,
    ;
}

impl Dictionary for SimpleDictionary {
    open spec fn entries(&self) -> Seq<DictEntry> {
        self@
    }

    fn contains(&self, word: &[char]) -> (r: bool) {
        let n = self.words.len();
        let mut i: usize = 0;
        while i < n
            invariant
                n == self.words@.len(),
                i <= n,
                self@.len() == n,
                forall|k: int| 0 <= k < i ==> !words_eq_ci(#[trigger] self@[k].word, word@),
            decreases n - i,
        {
            if chars_eq_ci(self.words[i].0.as_slice(), word) {
                assert(words_eq_ci(self@[i as int].word, word@));
                return true;
            }
            assert(!words_eq_ci(self@[i as int].word, word@));
            i = i + 1;
        }
        false
    }

    fn fuzzy_match(&self, prefix: &[char], max_edit_distance: u8, max_results: usize) -> (r: Vec<
        FuzzyMatchResult,
    >) {
        let ghost all = matches_of(self@, prefix@, max_edit_distance);
        let n = self.words.len();
        let mut found: Vec<FuzzyMatchResult> = Vec::new();
        let mut i: usize = 0;
        proof {
            assert(self@.skip(0) =~= self@);
            assert(view_matches(found@) + all =~= all);
        }
        while i < n
            invariant
                n == self.words@.len(),
                self@.len() == n,
                i <= n,
                all == matches_of(self@, prefix@, max_edit_distance),
                view_matches(found@) + matches_of(self@.skip(i as int), prefix@, max_edit_distance)
                    == all,
            decreases n - i,
        {
            let word_slice = self.words[i].0.as_slice();
            let d = levenshtein_distance(prefix, word_slice);
            proof {
                assert(self@.skip(i as int)[0] == self@[i as int]);
                assert(self@.skip(i as int).drop_first() =~= self@.skip(i + 1));
            }
            let ghost tail = matches_of(self@.skip(i + 1), prefix@, max_edit_distance);
            if d <= max_edit_distance {
                let m = FuzzyMatchResult {
                    word: slice_to_vec(word_slice),
                    edit_distance: d,
                    is_common: self.words[i].1,
                };
                proof {
                    assert(m@ == MatchView {
                        word: self@[i as int].word,
                        edit_distance: d,
                        is_common: self@[i as int].common,
                    });
                    assert(view_matches(found@.push(m)) =~= view_matches(found@) + seq![m@]);
                    assert((view_matches(found@) + seq![m@]) + tail =~= view_matches(found@) + (
                    seq![m@] + tail));
                }
                found.push(m);
            } else {
                proof {
                    assert(Seq::<MatchView>::empty() + tail =~= tail);
                }
            }
            i = i + 1;
        }
        proof {
            assert(self@.skip(n as int) =~= Seq::<DictEntry>::empty());
            assert(view_matches(found@) + Seq::<MatchView>::empty() =~= view_matches(found@));
            assert(view_matches(found@) == all);
        }

        let mut r = sort_fuzzy_matches(found);
        proof {
            lemma_sort_matches_sorted(all);
        }
        if r.len() > max_results {
            let ghost before = r@;
            r.truncate(max_results);
            proof {
                assert(view_matches(r@) =~= view_matches(before).take(max_results as int));
                assert(sorted_by_rank(view_matches(r@))) by {
                    let t = view_matches(r@);
                    let s = view_matches(before);
                    assert(forall|i: int, j: int|
                        0 <= i < j < t.len() ==> match_rank(#[trigger] t[i]) <= match_rank(
                            #[trigger] t[j],
                        ));
                }
            }
        }
        r
    }
}

} // verus!
