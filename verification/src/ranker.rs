//! Scoring and ordering of completion suggestions.
//!
//! Each fuzzy match is scored from its edit distance, its leading
//! agreement with the query and its commonality; candidates are then
//! sorted by score descending (stably, so equal scores keep their
//! order), cut to a fixed count, and given the query's
//! capitalization.

use vstd::prelude::*;

use crate::chars::ascii_eq;
use crate::chars::ascii_eq_exec;
use crate::chars::chars_to_string;
use crate::chars::is_upper_char;
use crate::chars::is_upper_exec;
use crate::chars::str_to_chars;
use crate::chars::upper_first;
use crate::chars::upper_first_exec;
use crate::dictionary::Dictionary;
use crate::dictionary::FuzzyMatchResult;
use crate::dictionary::MatchView;
use crate::dictionary::spec_fuzzy_match;
use crate::dictionary::view_matches;

verus! {

/// How many completions a query may yield.
pub const MAX_COMPLETIONS: usize = 50;

/// How many matches are gathered before ranking.
pub const COMPLETION_POOL: usize = 200;

/// The shortest prefix that yields completions.
pub const MIN_PREFIX_LEN: usize = 2;

// ---------------------------------------------------------------------------
// The edit-distance budget rule.
// ---------------------------------------------------------------------------

/// The fixed budget rule: distance one for queries of up to three
/// codepoints, two beyond that.
pub open spec fn spec_max_distance(len: int) -> u8 {
    if len <= 3 {
        1
    } else {
        2
    }
}

/// The edit-distance budget for a query of the given length.
pub fn max_distance_for(len: usize) -> (r: u8)
    ensures
        r == spec_max_distance(len as int),
{
    if len <= 3 {
        1
    } else {
        2
    }
}

// ---------------------------------------------------------------------------
// Scoring.
// ---------------------------------------------------------------------------

/// Leading positions where the two sequences agree up to ASCII case.
pub open spec fn common_prefix_len(q: Seq<char>, c: Seq<char>) -> int
    decreases q.len(),
{
    if q.len() == 0 || c.len() == 0 {
        0
    } else if ascii_eq(q[0], c[0]) {
        1 + common_prefix_len(q.drop_first(), c.drop_first())
    } else {
        0
    }
}

/// The completion score: a base of 100, minus an edit-distance
/// penalty of 0, 20, 50 or 100; plus 50 when the first codepoints
/// agree up to ASCII case or minus 30 when they differ (skipped
/// entirely when either side is empty); plus 8 per leading agreeing
/// codepoint; plus 35 for a common word.
pub open spec fn spec_score(q: Seq<char>, c: Seq<char>, edit_distance: u8, is_common: bool) -> int {
    let dist_penalty: int = if edit_distance == 0 {
        0
    } else if edit_distance == 1 {
        20
    } else if edit_distance == 2 {
        50
    } else {
        100
    };
    let first_term: int = if q.len() > 0 && c.len() > 0 {
        if ascii_eq(q[0], c[0]) {
            50
        } else {
            -30
        }
    } else {
        0
    };
    let common_bonus: int = if is_common {
        35
    } else {
        0
    };
    100 - dist_penalty + first_term + 8 * common_prefix_len(q, c) + common_bonus
}

/// The commonality flag is worth exactly 35 points, whatever the
/// other inputs are.
pub proof fn lemma_score_common_bonus(q: Seq<char>, c: Seq<char>, edit_distance: u8)
    ensures
        spec_score(q, c, edit_distance, true) - spec_score(q, c, edit_distance, false) == 35,
{
}

/// Calculate completion score for ranking.
pub fn calculate_completion_score(
    query: &[char],
    candidate: &[char],
    edit_distance: u8,
    is_common: bool,
) -> (r: i64)
    requires
        query@.len() <= 0x7FFF_FFFF,
    ensures
        r == spec_score(query@, candidate@, edit_distance, is_common),
{
    let qn = query.len();
    let cn = candidate.len();

    // Leading agreement.
    let mut k: usize = 0;
    proof {
        assert(query@.skip(0) =~= query@);
        assert(candidate@.skip(0) =~= candidate@);
    }
    while k < qn && k < cn && ascii_eq_exec(query[k], candidate[k])
        invariant
            qn == query@.len(),
            cn == candidate@.len(),
            k <= qn,
            k <= cn,
            common_prefix_len(query@, candidate@) == k + common_prefix_len(
                query@.skip(k as int),
                candidate@.skip(k as int),
            ),
        decreases qn - k,
    {
        proof {
            assert(query@.skip(k as int)[0] == query@[k as int]);
            assert(candidate@.skip(k as int)[0] == candidate@[k as int]);
            assert(query@.skip(k as int).drop_first() =~= query@.skip(k + 1));
            assert(candidate@.skip(k as int).drop_first() =~= candidate@.skip(k + 1));
        }
        k = k + 1;
    }
    proof {
        assert(common_prefix_len(query@.skip(k as int), candidate@.skip(k as int)) == 0);
    }

    let dist_penalty: i64 = if edit_distance == 0 {
        0
    } else if edit_distance == 1 {
        20
    } else if edit_distance == 2 {
        50
    } else {
        100
    };
    let first_term: i64 = if qn > 0 && cn > 0 {
        if ascii_eq_exec(query[0], candidate[0]) {
            50
        } else {
            -30
        }
    } else {
        0
    };
    let common_bonus: i64 = if is_common {
        35
    } else {
        0
    };
    100 - dist_penalty + first_term + 8 * (k as i64) + common_bonus
}

// ---------------------------------------------------------------------------
// Capitalization transfer.
// ---------------------------------------------------------------------------

/// The suggestion with the original's capitalization: when the
/// original starts uppercase, the suggestion's first codepoint is
/// uppercased; otherwise the suggestion is unchanged.
pub open spec fn spec_apply_capitalization(orig: Seq<char>, sug: Seq<char>) -> Seq<char> {
    if orig.len() > 0 && is_upper_char(orig[0]) && sug.len() > 0 {
        seq![upper_first(sug[0])] + sug.drop_first()
    } else {
        sug
    }
}

/// Apply capitalization from original word to suggestion.
pub fn apply_capitalization(original: &[char], suggestion: &str) -> (r: String)
    ensures
        r@ == spec_apply_capitalization(original@, suggestion@),
{
    let starts_uppercase = if original.len() > 0 {
        is_upper_exec(original[0])
    } else {
        false
    };
    let mut chars = str_to_chars(suggestion);
    if starts_uppercase && chars.len() > 0 {
        let up = upper_first_exec(chars[0]);
        chars.set(0, up);
        proof {
            assert(chars@ =~= seq![upper_first(suggestion@[0])] + suggestion@.drop_first());
        }
    }
    chars_to_string(&chars)
}

// ---------------------------------------------------------------------------
// Candidates and their stable descending sort.
// ---------------------------------------------------------------------------

/// One ranked completion.
pub struct CompletionCandidate {
    pub text: String,
    pub score: i64,
}

/// The mathematical content of a completion candidate.
pub ghost struct CandidateView {
    pub text: Seq<char>,
    pub score: int,
}

impl View for CompletionCandidate {
    type V = CandidateView;

    open spec fn view(&self) -> CandidateView {
        CandidateView { text: self.text@, score: self.score as int }
    }
}

/// A candidate list seen as its mathematical content.
pub open spec fn view_candidates(v: Seq<CompletionCandidate>) -> Seq<CandidateView> {
    v.map_values(|c: CompletionCandidate| c@)
}

/// Scores never rise along the list.
pub open spec fn sorted_by_score(s: Seq<CandidateView>) -> bool {
    forall|i: int, j: int| 0 <= i < j < s.len() ==> s[i].score >= s[j].score
}

/// `x` placed after every leading element whose score is no less.
pub open spec fn insert_desc(x: CandidateView, s: Seq<CandidateView>) -> Seq<CandidateView>
    decreases s.len(),
{
    if s.len() == 0 {
        seq![x]
    } else if s[0].score >= x.score {
        seq![s[0]] + insert_desc(x, s.drop_first())
    } else {
        seq![x] + s
    }
}

/// The stable sort by score descending.
pub open spec fn sort_candidates(s: Seq<CandidateView>) -> Seq<CandidateView>
    decreases s.len(),
{
    if s.len() == 0 {
        Seq::empty()
    } else {
        insert_desc(s.last(), sort_candidates(s.drop_last()))
    }
}

proof fn lemma_insert_desc_at(x: CandidateView, s: Seq<CandidateView>, pos: int)
    requires
        0 <= pos <= s.len(),
        forall|k: int| 0 <= k < pos ==> s[k].score >= x.score,
        pos == s.len() || s[pos].score < x.score,
    ensures
        insert_desc(x, s) == s.insert(pos, x),
    decreases pos,
{
    if pos == 0 {
        if s.len() == 0 {
            assert(insert_desc(x, s) =~= s.insert(0, x));
        } else {
            assert(seq![x] + s =~= s.insert(0, x));
        }
    } else {
        lemma_insert_desc_at(x, s.drop_first(), pos - 1);
        assert(seq![s[0]] + s.drop_first().insert(pos - 1, x) =~= s.insert(pos, x));
    }
}

proof fn lemma_insert_desc_score_ub(x: CandidateView, s: Seq<CandidateView>, hi: int)
    requires
        hi >= x.score,
        forall|k: int| 0 <= k < s.len() ==> hi >= (#[trigger] s[k]).score,
    ensures
        insert_desc(x, s).len() == s.len() + 1,
        forall|k: int|
            0 <= k < insert_desc(x, s).len() ==> hi >= (#[trigger] insert_desc(x, s)[k]).score,
    decreases s.len(),
{
    if s.len() > 0 && s[0].score >= x.score {
        lemma_insert_desc_score_ub(x, s.drop_first(), hi);
    }
}

proof fn lemma_insert_desc_sorted(x: CandidateView, s: Seq<CandidateView>)
    requires
        sorted_by_score(s),
    ensures
        sorted_by_score(insert_desc(x, s)),
        insert_desc(x, s).len() == s.len() + 1,
    decreases s.len(),
{
    if s.len() == 0 {
    } else if s[0].score >= x.score {
        let rest = s.drop_first();
        assert(sorted_by_score(rest)) by {
            assert(forall|i: int, j: int|
                0 <= i < j < rest.len() ==> (#[trigger] rest[i]).score >= (
                #[trigger] rest[j]).score);
        }
        lemma_insert_desc_sorted(x, rest);
        let hi = s[0].score;
        assert(forall|k: int| 0 <= k < rest.len() ==> hi >= (#[trigger] rest[k]).score);
        lemma_insert_desc_score_ub(x, rest, hi);
        let r = seq![s[0]] + insert_desc(x, rest);
        assert(forall|i: int, j: int|
            0 <= i < j < r.len() ==> (#[trigger] r[i]).score >= (#[trigger] r[j]).score);
    } else {
        let r = seq![x] + s;
        assert(forall|i: int, j: int|
            0 <= i < j < r.len() ==> (#[trigger] r[i]).score >= (#[trigger] r[j]).score);
    }
}

/// The stable descending sort sorts, and keeps the length.
pub proof fn lemma_sort_candidates_sorted(s: Seq<CandidateView>)
    ensures
        sorted_by_score(sort_candidates(s)),
        sort_candidates(s).len() == s.len(),
    decreases s.len(),
{
    if s.len() > 0 {
        lemma_sort_candidates_sorted(s.drop_last());
        lemma_insert_desc_sorted(s.last(), sort_candidates(s.drop_last()));
    }
}

/// Stable insertion sort of candidates by score descending.
fn sort_candidates_exec(input: Vec<CompletionCandidate>) -> (r: Vec<CompletionCandidate>)
    ensures
        view_candidates(r@) == sort_candidates(view_candidates(input@)),
{
    let ghost orig = input@;
    let ghost vw = view_candidates(orig);
    let mut rest = input;
    let mut out: Vec<CompletionCandidate> = Vec::new();

    proof {
        assert(view_candidates(out@) =~= sort_candidates(vw.take(0)));
    }

    while rest.len() > 0
        invariant
            rest@.len() <= orig.len(),
            rest@ == orig.skip(orig.len() - rest@.len()),
            vw == view_candidates(orig),
            view_candidates(out@) == sort_candidates(vw.take(orig.len() - rest@.len())),
        decreases rest@.len(),
    {
        let ghost done = orig.len() - rest@.len();
        let x = rest.remove(0);
        proof {
            assert(orig.skip(done).remove(0) =~= orig.skip(done + 1));
            assert(x == orig.skip(done)[0]);
            assert(x == orig[done]);
        }

        let xs = x.score;
        let mut pos: usize = 0;
        while pos < out.len() && out[pos].score >= xs
            invariant
                pos <= out@.len(),
                xs == x.score,
                forall|k: int| 0 <= k < pos ==> view_candidates(out@)[k].score >= x@.score,
            decreases out@.len() - pos,
        {
            pos = pos + 1;
        }

        proof {
            lemma_insert_desc_at(x@, view_candidates(out@), pos as int);
        }
        let ghost out_before = out@;
        out.insert(pos, x);
        proof {
            assert(view_candidates(out@) =~= view_candidates(out_before).insert(pos as int, x@));
            assert(vw.take(done + 1).drop_last() =~= vw.take(done));
            assert(vw.take(done + 1).last() == x@);
            assert(view_candidates(out@) == sort_candidates(vw.take(done + 1)));
        }
    }

    proof {
        assert(vw.take(orig.len() as int) =~= vw);
    }
    out
}

// ---------------------------------------------------------------------------
// Ranking.
// ---------------------------------------------------------------------------

/// The candidate one match contributes: the capitalized word and its
/// score.
pub open spec fn candidate_of(p: Seq<char>, m: MatchView) -> CandidateView {
    CandidateView {
        text: spec_apply_capitalization(p, m.word),
        score: spec_score(p, m.word, m.edit_distance, m.is_common),
    }
}

/// A list cut to at most `n` entries.
pub open spec fn truncated_candidates(s: Seq<CandidateView>, n: int) -> Seq<CandidateView> {
    if s.len() <= n {
        s
    } else {
        s.take(n)
    }
}

/// What ranking yields: each match scored and capitalized, the list
/// stably sorted by score descending, cut to the completion count.
pub open spec fn spec_rank_completions(p: Seq<char>, ms: Seq<MatchView>) -> Seq<CandidateView> {
    truncated_candidates(sort_candidates(ms.map_values(|m: MatchView| candidate_of(p, m))), 50)
}

/// Score, capitalize, sort and cut a list of fuzzy matches.
pub fn rank_completions(prefix: &[char], matches: Vec<FuzzyMatchResult>) -> (r: Vec<
    CompletionCandidate,
>)
    requires
        prefix@.len() <= 0x7FFF_FFFF,
    ensures
        view_candidates(r@) == spec_rank_completions(prefix@, view_matches(matches@)),
        sorted_by_score(view_candidates(r@)),
        r@.len() <= 50,
{
    let ghost mviews = view_matches(matches@);
    let ghost cands_spec = mviews.map_values(|m: MatchView| candidate_of(prefix@, m));

    let n = matches.len();
    let mut cands: Vec<CompletionCandidate> = Vec::new();
    let mut i: usize = 0;
    proof {
        assert(view_candidates(cands@) =~= cands_spec.take(0));
    }
    while i < n
        invariant
            n == matches@.len(),
            prefix@.len() <= 0x7FFF_FFFF,
            mviews == view_matches(matches@),
            cands_spec == mviews.map_values(|m: MatchView| candidate_of(prefix@, m)),
            i <= n,
            view_candidates(cands@) == cands_spec.take(i as int),
        decreases n - i,
    {
        let m = &matches[i];
        let word_str = chars_to_string(&m.word);
        let text = apply_capitalization(prefix, word_str.as_str());
        let score = calculate_completion_score(
            prefix,
            m.word.as_slice(),
            m.edit_distance,
            m.is_common,
        );
        let cand = CompletionCandidate { text, score };
        proof {
            assert(cand@ == candidate_of(prefix@, mviews[i as int]));
            assert(view_candidates(cands@.push(cand)) =~= view_candidates(cands@).push(cand@));
            assert(cands_spec.take(i + 1) =~= cands_spec.take(i as int).push(
                cands_spec[i as int],
            ));
        }
        cands.push(cand);
        i = i + 1;
    }
    proof {
        assert(cands_spec.take(n as int) =~= cands_spec);
    }

    let mut r = sort_candidates_exec(cands);
    proof {
        lemma_sort_candidates_sorted(cands_spec);
    }
    if r.len() > MAX_COMPLETIONS {
        let ghost before = r@;
        r.truncate(MAX_COMPLETIONS);
        proof {
            assert(view_candidates(r@) =~= view_candidates(before).take(50));
            assert(sorted_by_score(view_candidates(r@))) by {
                let t = view_candidates(r@);
                let s = view_candidates(before);
                assert(forall|i: int, j: int|
                    0 <= i < j < t.len() ==> (#[trigger] t[i]).score >= (#[trigger] t[j]).score);
            }
        }
    }
    r
}

/// Capitalization-adjusted replacement suggestions, one per match.
pub fn suggestions_for(word: &[char], matches: &Vec<FuzzyMatchResult>) -> (r: Vec<String>)
    ensures
        r@.len() == matches@.len(),
        forall|k: int|
            0 <= k < r@.len() ==> r@[k]@ == spec_apply_capitalization(
                word@,
                view_matches(matches@)[k].word,
            ),
{
    let n = matches.len();
    let mut r: Vec<String> = Vec::new();
    let mut i: usize = 0;
    while i < n
        invariant
            n == matches@.len(),
            i <= n,
            r@.len() == i,
            forall|k: int|
                0 <= k < i ==> r@[k]@ == spec_apply_capitalization(
                    word@,
                    view_matches(matches@)[k].word,
                ),
        decreases n - i,
    {
        let m = &matches[i];
        let word_str = chars_to_string(&m.word);
        let cap = apply_capitalization(word, word_str.as_str());
        r.push(cap);
        i = i + 1;
    }
    r
}

/// Completion candidates for a typed prefix: nothing for a prefix
/// under the minimum length; otherwise the pooled fuzzy matches under
/// the budget rule, ranked.
pub fn completion_candidates<D: Dictionary>(dict: &D, prefix: &[char]) -> (r: Vec<
    CompletionCandidate,
>)
    requires
        prefix@.len() <= 0x7FFF_FFFF,
    ensures
        prefix@.len() < 2 ==> r@.len() == 0,
        prefix@.len() >= 2 ==> view_candidates(r@) == spec_rank_completions(
            prefix@,
            spec_fuzzy_match(
                dict.entries(),
                prefix@,
                spec_max_distance(prefix@.len() as int),
                200,
            ),
        ),
        sorted_by_score(view_candidates(r@)),
        r@.len() <= 50,
{
    if prefix.len() < MIN_PREFIX_LEN {
        let r: Vec<CompletionCandidate> = Vec::new();
        proof {
            assert(view_candidates(r@) =~= Seq::<CandidateView>::empty());
        }
        return r;
    }
    let max_edit_distance = max_distance_for(prefix.len());
    let matches = dict.fuzzy_match(prefix, max_edit_distance, COMPLETION_POOL);
    rank_completions(prefix, matches)
}

} // verus!
