//! Conversion between flat codepoint offsets and (line, column)
//! positions, with columns counted in UTF-16 code units.
//!
//! A `LineIndex` records where each line starts; its invariant — the
//! starts are strictly increasing and begin at zero — is what the
//! binary search below relies on. The conversions are total: offsets
//! and positions beyond the text clamp instead of failing, since a
//! position request may race a concurrent replacement of the text.

use vstd::prelude::*;

use crate::chars::utf16_len;
use crate::chars::utf16_len_exec;

verus! {

/// A zero-based (line, column) pair; the column counts UTF-16 code
/// units from the line start.
#[derive(Clone, Copy, PartialEq, Eq, Structural, Debug)]
pub struct Position {
    pub line: u32,
    pub character: u32,
}

/// Width of a codepoint sequence in UTF-16 code units.
pub open spec fn utf16_width(s: Seq<char>) -> nat
    decreases s.len(),
{
    if s.len() == 0 {
        0
    } else {
        utf16_width(s.drop_last()) + utf16_len(s.last())
    }
}

/// A sequence of basic-plane codepoints is as wide as it is long.
pub proof fn lemma_utf16_width_ones(s: Seq<char>)
    requires
        forall|k: int| 0 <= k < s.len() ==> utf16_len(#[trigger] s[k]) == 1,
    ensures
        utf16_width(s) == s.len(),
    decreases s.len(),
{
    if s.len() > 0 {
        lemma_utf16_width_ones(s.drop_last());
    }
}

/// The width never exceeds twice the length.
pub proof fn lemma_utf16_width_bound(s: Seq<char>)
    ensures
        utf16_width(s) <= 2 * s.len(),
    decreases s.len(),
{
    if s.len() > 0 {
        lemma_utf16_width_bound(s.drop_last());
    }
}

/// The positions just after each line break of `s`, in order.
pub open spec fn nl_starts(s: Seq<char>) -> Seq<int>
    decreases s.len(),
{
    if s.len() == 0 {
        Seq::empty()
    } else if s.last() == '\n' {
        nl_starts(s.drop_last()).push(s.len() as int)
    } else {
        nl_starts(s.drop_last())
    }
}

/// The line starts of `s`: zero, then the position after each break.
pub open spec fn spec_line_starts(s: Seq<char>) -> Seq<int> {
    seq![0] + nl_starts(s)
}

proof fn lemma_nl_starts_wf(s: Seq<char>)
    ensures
        forall|k: int| 0 <= k < nl_starts(s).len() ==> 0 < #[trigger] nl_starts(s)[k] <= s.len(),
        forall|i: int, j: int|
            0 <= i < j < nl_starts(s).len() ==> nl_starts(s)[i] < nl_starts(s)[j],
    decreases s.len(),
{
    if s.len() > 0 {
        lemma_nl_starts_wf(s.drop_last());
        let prev = nl_starts(s.drop_last());
        let cur = nl_starts(s);
        if s.last() == '\n' {
            assert(cur == prev.push(s.len() as int));
            assert forall|k: int| 0 <= k < cur.len() implies 0 < #[trigger] cur[k] <= s.len() by {
                if k < prev.len() {
                    assert(cur[k] == prev[k]);
                }
            }
            assert forall|i: int, j: int| 0 <= i < j < cur.len() implies cur[i] < cur[j] by {
                if j < prev.len() {
                    assert(cur[i] == prev[i] && cur[j] == prev[j]);
                } else {
                    assert(cur[i] == prev[i]);
                    assert(cur[j] == s.len() as int);
                    assert(prev[i] <= s.drop_last().len());
                }
            }
        } else {
            assert(cur == prev);
            assert(forall|k: int| 0 <= k < cur.len() ==> 0 < #[trigger] cur[k] <= s.len());
        }
    }
}

/// The line starts begin at zero, stay within the text (plus one
/// position past a final break), and increase strictly.
pub proof fn lemma_line_starts_wf(s: Seq<char>)
    ensures
        spec_line_starts(s).len() >= 1,
        spec_line_starts(s)[0] == 0,
        forall|k: int|
            0 <= k < spec_line_starts(s).len() ==> 0 <= #[trigger] spec_line_starts(s)[k]
                <= s.len(),
        forall|i: int, j: int|
            0 <= i < j < spec_line_starts(s).len() ==> spec_line_starts(s)[i]
                < spec_line_starts(s)[j],
{
    lemma_nl_starts_wf(s);
}

/// The line holding offset `o`: the last line whose start is at or
/// before `o`.
pub open spec fn line_of(ls: Seq<int>, o: int) -> int
    decreases ls.len(),
{
    if ls.len() <= 1 {
        0
    } else if ls.last() <= o {
        ls.len() - 1
    } else {
        line_of(ls.drop_last(), o)
    }
}

/// For well-formed starts, `line_of` brackets the offset.
pub proof fn lemma_line_of_props(ls: Seq<int>, o: int)
    requires
        ls.len() >= 1,
        ls[0] == 0,
        forall|i: int, j: int| 0 <= i < j < ls.len() ==> ls[i] < ls[j],
        o >= 0,
    ensures
        0 <= line_of(ls, o) < ls.len(),
        ls[line_of(ls, o)] <= o,
        line_of(ls, o) + 1 == ls.len() || ls[line_of(ls, o) + 1] > o,
    decreases ls.len(),
{
    if ls.len() > 1 && ls.last() > o {
        let prev = ls.drop_last();
        assert(forall|i: int, j: int| 0 <= i < j < prev.len() ==> prev[i] < prev[j]);
        lemma_line_of_props(prev, o);
    }
}

/// Any index that brackets the offset is `line_of`.
pub proof fn lemma_line_of_unique(ls: Seq<int>, o: int, l: int)
    requires
        ls.len() >= 1,
        ls[0] == 0,
        forall|i: int, j: int| 0 <= i < j < ls.len() ==> ls[i] < ls[j],
        o >= 0,
        0 <= l < ls.len(),
        ls[l] <= o,
        l + 1 == ls.len() || ls[l + 1] > o,
    ensures
        l == line_of(ls, o),
{
    let lo = line_of(ls, o);
    lemma_line_of_props(ls, o);
    if l < lo {
        assert(ls[l + 1] <= ls[lo]);
    } else if lo < l {
        assert(ls[lo + 1] <= ls[l]);
    }
}

/// The position an offset converts to: its line, and the UTF-16
/// width of the text from the line start to the offset (clamped to
/// the text's end).
pub open spec fn spec_index_to_position(ls: Seq<int>, s: Seq<char>, index: int) -> (int, int) {
    let l = line_of(ls, index);
    let upto = if index < s.len() {
        index
    } else {
        s.len() as int
    };
    let from = ls[l];
    let cols = if from <= upto {
        utf16_width(s.subrange(from, upto)) as int
    } else {
        0
    };
    (l, cols)
}

/// The offset a position converts to: a direct lookup of the line
/// start plus the column, clamping an unknown line to the last valid
/// offset and an overlong column to the line's end.
pub open spec fn spec_position_to_index(ls: Seq<int>, s: Seq<char>, line: int, character: int) -> int {
    if line >= ls.len() {
        if s.len() == 0 {
            0
        } else {
            s.len() - 1
        }
    } else {
        let start = ls[line];
        let end = if line + 1 < ls.len() {
            ls[line + 1]
        } else {
            s.len() as int
        };
        let linelen = if end >= start {
            end - start
        } else {
            0
        };
        if character > linelen {
            end
        } else {
            start + character
        }
    }
}

/// Whether a position lies beyond the text: its line is unknown, or
/// its column exceeds the line's content length (a trailing break
/// excluded).
pub open spec fn spec_position_out_of_bounds(
    ls: Seq<int>,
    s: Seq<char>,
    line: int,
    character: int,
) -> bool {
    if line >= ls.len() {
        true
    } else {
        let start = ls[line];
        let end = if line + 1 < ls.len() {
            ls[line + 1]
        } else {
            s.len() as int
        };
        let raw = if end >= start {
            end - start
        } else {
            0
        };
        let linelen = if raw > 0 && 0 <= end - 1 < s.len() && s[end - 1] == '\n' {
            raw - 1
        } else {
            raw
        };
        character > linelen
    }
}

/// Pre-built index of line start positions for fast position
/// conversion.
#[derive(Clone, Debug)]
pub struct LineIndex {
    line_starts: Vec<usize>,
}

impl View for LineIndex {
    type V = Seq<int>;

    closed spec fn view(&self) -> Seq<int> {
        self.line_starts@.map_values(|x: usize| x as int)
    }
}

impl LineIndex {
    /// The index is well formed: it starts at zero and increases
    /// strictly.
    pub open spec fn wf(&self) -> bool {
        &&& self@.len() >= 1
        &&& self@[0] == 0
        &&& forall|i: int, j: int| 0 <= i < j < self@.len() ==> self@[i] < self@[j]
    }

    /// Build a new LineIndex from source characters, scanning once
    /// for the line breaks.
    pub fn new(source: &[char]) -> (r: Self)
        ensures
            r@ == spec_line_starts(source@),
            r.wf(),
    {
        let mut line_starts: Vec<usize> = Vec::new();
        line_starts.push(0);
        let n = source.len();
        let mut idx: usize = 0;

        proof {
            assert(line_starts@.map_values(|x: usize| x as int) =~= seq![0int] + nl_starts(
                source@.take(0),
            ));
        }

        while idx < n
            invariant
                n == source@.len(),
                idx <= n,
                line_starts@.map_values(|x: usize| x as int) == seq![0int] + nl_starts(
                    source@.take(idx as int),
                ),
            decreases n - idx,
        {
            proof {
                assert(source@.take(idx + 1).drop_last() =~= source@.take(idx as int));
                assert(source@.take(idx + 1).last() == source@[idx as int]);
            }
            if source[idx] == '\n' {
                let ghost before = line_starts@;
                line_starts.push(idx + 1);
                proof {
                    assert(line_starts@.map_values(|x: usize| x as int) =~= before.map_values(
                        |x: usize| x as int,
                    ).push(idx + 1));
                }
            }
            idx = idx + 1;
        }

        let r = Self { line_starts };
        proof {
            assert(source@.take(n as int) =~= source@);
            lemma_line_starts_wf(source@);
        }
        r
    }

    /// Find the line containing `index`: binary search over the line
    /// starts.
    fn find_line(&self, index: usize) -> (l: usize)
        requires
            self.wf(),
        ensures
            0 <= l < self@.len(),
            self@[l as int] <= index,
            l + 1 == self@.len() || self@[l as int + 1] > index,
            l as int == line_of(self@, index as int),
    {
        let len = self.line_starts.len();
        let mut lo: usize = 0;
        let mut hi: usize = len;
        while lo + 1 < hi
            invariant
                len == self@.len(),
                self.wf(),
                0 <= lo < hi <= len,
                self@[lo as int] <= index,
                hi == len || self@[hi as int] > index,
            decreases hi - lo,
        {
            let mid = lo + (hi - lo) / 2;
            if self.line_starts[mid] <= index {
                lo = mid;
            } else {
                hi = mid;
            }
        }
        proof {
            lemma_line_of_unique(self@, index as int, lo as int);
        }
        lo
    }

    /// Convert a character index to a position: binary search for
    /// the line, then count UTF-16 units from the line start.
    pub fn index_to_position(&self, source: &[char], index: usize) -> (r: Position)
        requires
            self.wf(),
            source@.len() < 0x8000_0000,
            self@.len() <= source@.len() + 1,
        ensures
            (r.line as int, r.character as int) == spec_index_to_position(
                self@,
                source@,
                index as int,
            ),
    {
        let line = self.find_line(index);
        let line_start = self.line_starts[line];
        let upto = if index < source.len() {
            index
        } else {
            source.len()
        };

        let mut cols: u64 = 0;
        if line_start <= upto {
            let mut k = line_start;
            proof {
                assert(source@.subrange(line_start as int, line_start as int) =~= Seq::<
                    char,
                >::empty());
                lemma_utf16_width_bound(source@.subrange(line_start as int, upto as int));
            }
            while k < upto
                invariant
                    line_start <= k <= upto,
                    upto <= source@.len(),
                    source@.len() < 0x8000_0000,
                    cols == utf16_width(source@.subrange(line_start as int, k as int)),
                    cols <= 2 * (k - line_start),
                decreases upto - k,
            {
                proof {
                    assert(source@.subrange(line_start as int, k + 1).drop_last() =~= source@
                        .subrange(line_start as int, k as int));
                    assert(source@.subrange(line_start as int, k + 1).last() == source@[k as int]);
                }
                cols = cols + utf16_len_exec(source[k]) as u64;
                k = k + 1;
            }
        }

        proof {
            assert(line < 0x8000_0000 + 1);
            assert(cols < 0x1_0000_0000);
        }
        Position { line: line as u32, character: cols as u32 }
    }

    /// Convert a position to a character index: a direct lookup of
    /// the line start plus the column, with out-of-range lines and
    /// columns clamped.
    pub fn position_to_index(&self, source: &[char], position: Position) -> (r: usize)
        requires
            self.wf(),
        ensures
            r == spec_position_to_index(
                self@,
                source@,
                position.line as int,
                position.character as int,
            ),
    {
        let line_idx = position.line as usize;
        let len = self.line_starts.len();

        if line_idx >= len {
            // Requested line doesn't exist - return last character.
            if source.len() == 0 {
                return 0;
            }
            return source.len() - 1;
        }

        let start = self.line_starts[line_idx];
        let end = if line_idx + 1 < len {
            self.line_starts[line_idx + 1]
        } else {
            source.len()
        };
        let linelen = if end >= start {
            end - start
        } else {
            0
        };

        let character = position.character as usize;
        if character > linelen {
            // Column is past end of line - clamp to end.
            end
        } else {
            start + character
        }
    }

    /// Check if a position is beyond the current document bounds.
    pub fn is_position_out_of_bounds(&self, source: &[char], position: Position) -> (r: bool)
        requires
            self.wf(),
        ensures
            r == spec_position_out_of_bounds(
                self@,
                source@,
                position.line as int,
                position.character as int,
            ),
    {
        let line_idx = position.line as usize;
        let len = self.line_starts.len();

        if line_idx >= len {
            return true;
        }

        let start = self.line_starts[line_idx];
        let end = if line_idx + 1 < len {
            self.line_starts[line_idx + 1]
        } else {
            source.len()
        };
        let raw = if end >= start {
            end - start
        } else {
            0
        };
        let line_len = if raw > 0 && end - 1 < source.len() && source[end - 1] == '\n' {
            raw - 1
        } else {
            raw
        };

        position.character as usize > line_len
    }
}

/// Converting an offset to a position and back returns the offset,
/// provided every codepoint between the line start and the offset is
/// a single UTF-16 unit wide.
pub proof fn lemma_position_round_trip(s: Seq<char>, o: int)
    requires
        0 <= o <= s.len(),
        ({
            let ls = spec_line_starts(s);
            forall|k: int| ls[line_of(ls, o)] <= k < o ==> utf16_len(#[trigger] s[k]) == 1
        }),
    ensures
        ({
            let ls = spec_line_starts(s);
            let p = spec_index_to_position(ls, s, o);
            spec_position_to_index(ls, s, p.0, p.1) == o
        }),
{
    let ls = spec_line_starts(s);
    lemma_line_starts_wf(s);
    lemma_line_of_props(ls, o);
    let l = line_of(ls, o);
    let from = ls[l];
    let sub = s.subrange(from, o);
    assert(forall|k: int| 0 <= k < sub.len() ==> utf16_len(#[trigger] sub[k]) == 1);
    lemma_utf16_width_ones(sub);
    let p = spec_index_to_position(ls, s, o);
    assert(p.0 == l);
    assert(p.1 == o - from);
    let end = if l + 1 < ls.len() {
        ls[l + 1]
    } else {
        s.len() as int
    };
    assert(end >= o);
    assert(spec_position_to_index(ls, s, l, o - from) == from + (o - from));
}

} // verus!
