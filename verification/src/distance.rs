//! Bounded edit distance between codepoint sequences.
//!
//! The distance is the classic Levenshtein metric — fewest insertions,
//! deletions and substitutions — with substitution free between
//! codepoints that are equal up to ASCII case. The executable function
//! computes it with two rolling rows and saturates at a fixed cap.

use vstd::prelude::*;

use crate::chars::ascii_eq;
use crate::chars::ascii_eq_exec;

verus! {

/// Least of three integers.
pub open spec fn min3(a: int, b: int, c: int) -> int {
    if a <= b && a <= c {
        a
    } else if b <= c {
        b
    } else {
        c
    }
}

/// A value clamped to the distance cap.
pub open spec fn clamp_cap(d: nat) -> nat {
    if d <= 255 {
        d
    } else {
        255
    }
}

/// Edit distance between two codepoint sequences: the fewest
/// single-codepoint insertions, deletions and substitutions turning
/// one into the other, where substituting a codepoint for one equal
/// up to ASCII case costs nothing.
pub open spec fn edit_distance(a: Seq<char>, b: Seq<char>) -> nat
    decreases a.len() + b.len(),
{
    if a.len() == 0 {
        b.len()
    } else if b.len() == 0 {
        a.len()
    } else {
        let cost: int = if ascii_eq(a.last(), b.last()) {
            0
        } else {
            1
        };
        min3(
            edit_distance(a.drop_last(), b) as int + 1,
            edit_distance(a, b.drop_last()) as int + 1,
            edit_distance(a.drop_last(), b.drop_last()) as int + cost,
        ) as nat
    }
}

/// One cell of the distance table, phrased over prefixes: the
/// recurrence that the rolling rows follow.
proof fn lemma_edit_distance_step(a: Seq<char>, b: Seq<char>, i: int, j: int)
    requires
        1 <= i <= a.len(),
        1 <= j <= b.len(),
    ensures
        edit_distance(a.take(i), b.take(j)) == min3(
            edit_distance(a.take(i - 1), b.take(j)) as int + 1,
            edit_distance(a.take(i), b.take(j - 1)) as int + 1,
            edit_distance(a.take(i - 1), b.take(j - 1)) as int + (
            if ascii_eq(a[i - 1], b[j - 1]) {
                0int
            } else {
                1int
            }),
        ),
{
    let x = a.take(i);
    let y = b.take(j);
    assert(x.len() == i && y.len() == j);
    assert(x.drop_last() =~= a.take(i - 1));
    assert(y.drop_last() =~= b.take(j - 1));
    assert(x.last() == a[i - 1]);
    assert(y.last() == b[j - 1]);
}

/// Calculate the edit distance between two character sequences,
/// saturating at the cap.
pub fn levenshtein_distance(a: &[char], b: &[char]) -> (r: u8)
    ensures
        r as nat == clamp_cap(edit_distance(a@, b@)),
{
    let m = a.len();
    let n = b.len();

    if m == 0 {
        return if n < 255 {
            n as u8
        } else {
            255u8
        };
    }
    if n == 0 {
        return if m < 255 {
            m as u8
        } else {
            255u8
        };
    }

    // Row 0: distance from the empty prefix of `a` to each prefix of `b`.
    let mut prev_row: Vec<usize> = Vec::new();
    prev_row.push(0);
    proof {
        assert(a@.take(0) =~= Seq::<char>::empty());
        assert(b@.take(0) =~= Seq::<char>::empty());
    }
    let mut j0: usize = 0;
    while j0 < n
        invariant
            n == b@.len(),
            j0 <= n,
            prev_row@.len() == j0 + 1,
            forall|k: int| 0 <= k <= j0 ==> prev_row@[k] == clamp_cap(
                edit_distance(a@.take(0), b@.take(k)),
            ),
        decreases n - j0,
    {
        proof {
            assert(a@.take(0) =~= Seq::<char>::empty());
            assert(b@.take(j0 + 1).len() == j0 + 1);
        }
        prev_row.push(
            if j0 < 254 {
                j0 + 1
            } else {
                255
            },
        );
        j0 = j0 + 1;
    }

    let mut i: usize = 0;
    while i < m
        invariant
            m == a@.len(),
            n == b@.len(),
            1 <= m,
            1 <= n,
            i <= m,
            prev_row@.len() == n + 1,
            forall|k: int| 0 <= k <= n ==> prev_row@[k] == clamp_cap(
                edit_distance(a@.take(i as int), b@.take(k)),
            ),
        decreases m - i,
    {
        let mut curr_row: Vec<usize> = Vec::new();
        proof {
            assert(a@.take(i + 1).len() == i + 1);
            assert(b@.take(0) =~= Seq::<char>::empty());
        }
        curr_row.push(
            if i < 254 {
                i + 1
            } else {
                255
            },
        );

        let mut j: usize = 0;
        while j < n
            invariant
                m == a@.len(),
                n == b@.len(),
                i < m,
                j <= n,
                prev_row@.len() == n + 1,
                forall|k: int| 0 <= k <= n ==> prev_row@[k] == clamp_cap(
                    edit_distance(a@.take(i as int), b@.take(k)),
                ),
                curr_row@.len() == j + 1,
                forall|k: int| 0 <= k <= j ==> curr_row@[k] == clamp_cap(
                    edit_distance(a@.take(i + 1), b@.take(k)),
                ),
            decreases n - j,
        {
            let cost: usize = if ascii_eq_exec(a[i], b[j]) {
                0
            } else {
                1
            };
            let up = prev_row[j + 1] + 1;
            let left = curr_row[j] + 1;
            let diag = prev_row[j] + cost;
            let mut d = if up <= left {
                up
            } else {
                left
            };
            if diag < d {
                d = diag;
            }
            if d > 255 {
                d = 255;
            }
            proof {
                lemma_edit_distance_step(a@, b@, i + 1, j + 1);
            }
            curr_row.push(d);
            j = j + 1;
        }

        prev_row = curr_row;
        i = i + 1;
    }

    proof {
        assert(a@.take(m as int) =~= a@);
        assert(b@.take(n as int) =~= b@);
    }
    prev_row[n] as u8
}

/// A sequence is at distance zero from itself.
pub proof fn lemma_edit_distance_self(a: Seq<char>)
    ensures
        edit_distance(a, a) == 0,
    decreases a.len(),
{
    if a.len() > 0 {
        lemma_edit_distance_self(a.drop_last());
    }
}

/// Edit distance is symmetric.
pub proof fn lemma_edit_distance_sym(a: Seq<char>, b: Seq<char>)
    ensures
        edit_distance(a, b) == edit_distance(b, a),
    decreases a.len() + b.len(),
{
    if a.len() > 0 && b.len() > 0 {
        lemma_edit_distance_sym(a.drop_last(), b);
        lemma_edit_distance_sym(a, b.drop_last());
        lemma_edit_distance_sym(a.drop_last(), b.drop_last());
    }
}

/// The distance is at least the length difference.
pub proof fn lemma_edit_distance_lower(a: Seq<char>, b: Seq<char>)
    ensures
        edit_distance(a, b) as int >= a.len() - b.len(),
        edit_distance(a, b) as int >= b.len() - a.len(),
    decreases a.len() + b.len(),
{
    if a.len() > 0 && b.len() > 0 {
        lemma_edit_distance_lower(a.drop_last(), b);
        lemma_edit_distance_lower(a, b.drop_last());
        lemma_edit_distance_lower(a.drop_last(), b.drop_last());
    }
}

/// The distance is at most the lengths combined.
pub proof fn lemma_edit_distance_upper(a: Seq<char>, b: Seq<char>)
    ensures
        edit_distance(a, b) <= a.len() + b.len(),
    decreases a.len() + b.len(),
{
    if a.len() > 0 && b.len() > 0 {
        lemma_edit_distance_upper(a.drop_last(), b.drop_last());
        assert(edit_distance(a, b) <= edit_distance(a.drop_last(), b.drop_last()) + 1);
    }
}

/// The triangle inequality: going through a third sequence never
/// shortens the distance.
pub proof fn lemma_edit_distance_triangle(a: Seq<char>, b: Seq<char>, c: Seq<char>)
    ensures
        edit_distance(a, c) <= edit_distance(a, b) + edit_distance(b, c),
    decreases a.len() + b.len() + c.len(),
{
    if a.len() == 0 {
        lemma_edit_distance_lower(b, c);
    } else if c.len() == 0 {
        lemma_edit_distance_lower(a, b);
    } else if b.len() == 0 {
        lemma_edit_distance_upper(a, c);
    } else {
        let a1 = a.drop_last();
        let b1 = b.drop_last();
        let c1 = c.drop_last();
        let dab = edit_distance(a, b);
        let dbc = edit_distance(b, c);
        if dab == edit_distance(a1, b) + 1 {
            lemma_edit_distance_triangle(a1, b, c);
            assert(edit_distance(a, c) <= edit_distance(a1, c) + 1);
        } else if dbc == edit_distance(b, c1) + 1 {
            lemma_edit_distance_triangle(a, b, c1);
            assert(edit_distance(a, c) <= edit_distance(a, c1) + 1);
        } else {
            let cab: int = if ascii_eq(a.last(), b.last()) {
                0
            } else {
                1
            };
            let cbc: int = if ascii_eq(b.last(), c.last()) {
                0
            } else {
                1
            };
            if dab == edit_distance(a, b1) + 1 {
                if dbc == edit_distance(b1, c) + 1 {
                    lemma_edit_distance_triangle(a, b1, c);
                } else {
                    assert(dbc == edit_distance(b1, c1) + cbc);
                    lemma_edit_distance_triangle(a, b1, c1);
                    assert(edit_distance(a, c) <= edit_distance(a, c1) + 1);
                }
            } else {
                assert(dab == edit_distance(a1, b1) + cab);
                if dbc == edit_distance(b1, c) + 1 {
                    lemma_edit_distance_triangle(a1, b1, c);
                    assert(edit_distance(a, c) <= edit_distance(a1, c) + 1);
                } else {
                    assert(dbc == edit_distance(b1, c1) + cbc);
                    lemma_edit_distance_triangle(a1, b1, c1);
                    let cac: int = if ascii_eq(a.last(), c.last()) {
                        0
                    } else {
                        1
                    };
                    assert(cac <= cab + cbc);
                    assert(edit_distance(a, c) <= edit_distance(a1, c1) + cac);
                }
            }
        }
    }
}

/// The triangle inequality carries over to the capped distance that
/// the executable function returns.
pub proof fn lemma_clamped_triangle(a: Seq<char>, b: Seq<char>, c: Seq<char>)
    ensures
        clamp_cap(edit_distance(a, c)) <= clamp_cap(edit_distance(a, b)) + clamp_cap(
            edit_distance(b, c),
        ),
{
    lemma_edit_distance_triangle(a, b, c);
}

} // verus!
