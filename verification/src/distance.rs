//! The distance kernel: Levenshtein edit distance over Unicode scalar values.
//!
//! `lev` is the mathematical definition; `levenshtein_distance` computes it
//! with a single-row dynamic program, and `levenshtein_distance_with_max`
//! computes it inside a diagonal band, giving up as soon as the requested
//! bound is provably exceeded.

use vstd::prelude::*;
use vstd::string::StrSliceExecFns;

verus! {

/// The smallest of three naturals.
pub open spec fn min3(x: nat, y: nat, z: nat) -> nat {
    if x <= y && x <= z {
        x
    } else if y <= z {
        y
    } else {
        z
    }
}

/// The Levenshtein edit distance between two sequences of Unicode scalar
/// values: the minimum number of single-character insertions, deletions and
/// substitutions that turn `a` into `b`.
pub open spec fn lev(a: Seq<char>, b: Seq<char>) -> nat
    decreases a.len() + b.len(),
{
    if a.len() == 0 {
        b.len()
    } else if b.len() == 0 {
        a.len()
    } else if a.last() == b.last() {
        lev(a.drop_last(), b.drop_last())
    } else {
        1 + min3(
            lev(a.drop_last(), b.drop_last()),
            lev(a.drop_last(), b),
            lev(a, b.drop_last()),
        )
    }
}

/// The distance never exceeds the longer operand's length.
pub proof fn lemma_lev_le_max_len(a: Seq<char>, b: Seq<char>)
    ensures
        lev(a, b) <= a.len() || lev(a, b) <= b.len(),
        lev(a, b) <= a.len() + b.len(),
    decreases a.len() + b.len(),
{
    if a.len() > 0 && b.len() > 0 {
        lemma_lev_le_max_len(a.drop_last(), b.drop_last());
    }
}

/// The distance is at least the difference of the operands' lengths: each
/// surplus character costs one insertion or deletion.
pub proof fn lemma_lev_ge_len_diff(a: Seq<char>, b: Seq<char>)
    ensures
        lev(a, b) + a.len() >= b.len(),
        lev(a, b) + b.len() >= a.len(),
    decreases a.len() + b.len(),
{
    if a.len() > 0 && b.len() > 0 {
        lemma_lev_ge_len_diff(a.drop_last(), b.drop_last());
        lemma_lev_ge_len_diff(a.drop_last(), b);
        lemma_lev_ge_len_diff(a, b.drop_last());
    }
}

/// Identity: every string, the empty one included, is at distance zero from
/// itself.
pub proof fn lemma_lev_identity(a: Seq<char>)
    ensures
        lev(a, a) == 0,
    decreases a.len(),
{
    if a.len() > 0 {
        lemma_lev_identity(a.drop_last());
    }
}

/// Symmetry: the distance does not depend on the order of its operands.
pub proof fn lemma_lev_symmetric(a: Seq<char>, b: Seq<char>)
    ensures
        lev(a, b) == lev(b, a),
    decreases a.len() + b.len(),
{
    if a.len() > 0 && b.len() > 0 {
        lemma_lev_symmetric(a.drop_last(), b.drop_last());
        lemma_lev_symmetric(a.drop_last(), b);
        lemma_lev_symmetric(a, b.drop_last());
    }
}

/// Dropping the last character of one operand changes the distance by at
/// most one.
proof fn lemma_lev_drop(a: Seq<char>, b: Seq<char>)
    requires
        b.len() > 0,
    ensures
        lev(a, b) <= lev(a, b.drop_last()) + 1,
        lev(a, b.drop_last()) <= lev(a, b) + 1,
    decreases a.len() + b.len(),
{
    if a.len() > 0 {
        let a1 = a.drop_last();
        let b1 = b.drop_last();
        lemma_lev_drop(b1, a);
        lemma_lev_drop(a1, b);
        lemma_lev_symmetric(a, b1);
        lemma_lev_symmetric(a1, b1);
    }
}

/// Triangle inequality: editing `a` into `b` and then `b` into `c` is one way
/// of editing `a` into `c`, so the direct distance can be no larger.
pub proof fn lemma_lev_triangle(a: Seq<char>, b: Seq<char>, c: Seq<char>)
    ensures
        lev(a, c) <= lev(a, b) + lev(b, c),
    decreases a.len() + b.len() + c.len(),
{
    if b.len() == 0 {
        lemma_lev_le_max_len(a, c);
    } else if a.len() == 0 {
        lemma_lev_ge_len_diff(b, c);
    } else if c.len() == 0 {
        lemma_lev_ge_len_diff(a, b);
    } else {
        let a1 = a.drop_last();
        let b1 = b.drop_last();
        let c1 = c.drop_last();
        lemma_lev_triangle(a1, b1, c1);
        lemma_lev_triangle(a1, b1, c);
        lemma_lev_triangle(a1, b, c1);
        lemma_lev_triangle(a, b1, c1);
        lemma_lev_triangle(a1, b, c);
        lemma_lev_triangle(a, b1, c);
        lemma_lev_triangle(a, b, c1);
        lemma_lev_drop(a, c);
        lemma_lev_drop(c, a);
        lemma_lev_symmetric(a, c);
        lemma_lev_symmetric(a1, c);
        lemma_lev_drop(a, b);
        lemma_lev_drop(b, a);
        lemma_lev_symmetric(a, b);
        lemma_lev_symmetric(a1, b);
        lemma_lev_drop(b, c);
        lemma_lev_drop(c, b);
        lemma_lev_symmetric(b, c);
        lemma_lev_symmetric(b1, c);
    }
}

/// How one cell of the prefix-indexed dynamic program is obtained from its
/// three predecessors: `lev(a.take(j), b.take(i))` is the distance between
/// the first `j` characters of `a` and the first `i` characters of `b`.
proof fn lemma_lev_step(a: Seq<char>, b: Seq<char>, j: int, i: int)
    requires
        1 <= j <= a.len(),
        0 <= i < b.len(),
    ensures
        lev(a.take(j), b.take(i + 1)) == if a[j - 1] == b[i] {
            lev(a.take(j - 1), b.take(i))
        } else {
            1 + min3(
                lev(a.take(j - 1), b.take(i)),
                lev(a.take(j - 1), b.take(i + 1)),
                lev(a.take(j), b.take(i)),
            )
        },
{
    let s = a.take(j);
    let t = b.take(i + 1);
    assert(s.last() == a[j - 1]);
    assert(t.last() == b[i]);
    assert(s.drop_last() =~= a.take(j - 1));
    assert(t.drop_last() =~= b.take(i));
}

/// The base row and column of the dynamic program.
proof fn lemma_lev_base(a: Seq<char>, b: Seq<char>, j: int, i: int)
    requires
        0 <= j <= a.len(),
        0 <= i <= b.len(),
    ensures
        lev(a.take(j), b.take(0)) == j,
        lev(a.take(0), b.take(i)) == i,
{
    assert(a.take(j).len() == j);
    assert(b.take(i).len() == i);
}

/// The characters of a string, as a vector of Unicode scalar values.
fn chars_vec(s: &str) -> (v: Vec<char>)
    ensures
        v@ == s@,
{
    let n: usize = s.unicode_len();
    let mut v: Vec<char> = Vec::new();
    let mut i: usize = 0;
    proof {
        assert(v@ =~= s@.take(0));
    }
    while i < n
        invariant
            n == s@.len(),
            i <= n,
            v@ == s@.take(i as int),
        decreases n - i,
    {
        let c: char = s.get_char(i);
        v.push(c);
        proof {
            assert(s@.take(i as int).push(s@[i as int]) =~= s@.take(i + 1));
        }
        i += 1;
    }
    proof {
        assert(s@.take(n as int) =~= s@);
    }
    v
}

/// The single-row dynamic program, with the shorter operand indexing the row.
fn dp_distance(short: &Vec<char>, long: &Vec<char>) -> (d: usize)
    requires
        short@.len() <= long@.len(),
    ensures
        d == lev(short@, long@),
{
    let n: usize = short.len();
    let m: usize = long.len();
    let mut row: Vec<usize> = Vec::new();
    row.push(0);
    let mut j: usize = 0;
    while j < n
        invariant
            n == short@.len() <= long@.len() == m,
            j <= n,
            row@.len() == j + 1,
            forall|k: int| 0 <= k <= j ==> row@[k] == k,
        decreases n - j,
    {
        j += 1;
        row.push(j);
    }
    proof {
        assert forall|k: int| 0 <= k <= n implies row@[k] == lev(
            short@.take(k),
            long@.take(0),
        ) by {
            lemma_lev_base(short@, long@, k, 0);
        }
    }
    let mut i: usize = 0;
    while i < m
        invariant
            n == short@.len() <= long@.len() == m,
            i <= m,
            row@.len() == n + 1,
            forall|k: int| 0 <= k <= n ==> row@[k] == lev(short@.take(k), long@.take(i as int)),
        decreases m - i,
    {
        proof {
            assert forall|k: int| 0 <= k <= n implies lev(
                short@.take(k),
                long@.take(i as int),
            ) <= long@.len() by {
                lemma_lev_le_max_len(short@.take(k), long@.take(i as int));
            }
        }
        let b_char: char = long[i];
        let mut up_left: usize = row[0];
        row.set(0, i + 1);
        proof {
            lemma_lev_base(short@, long@, 0, i + 1);
        }
        let mut jj: usize = 0;
        while jj < n
            invariant
                n == short@.len() <= long@.len() == m,
                i < m,
                b_char == long@[i as int],
                jj <= n,
                row@.len() == n + 1,
                up_left == lev(short@.take(jj as int), long@.take(i as int)),
                forall|k: int| 0 <= k <= jj ==> row@[k] == lev(
                    short@.take(k),
                    long@.take(i + 1),
                ),
                forall|k: int| jj < k <= n ==> row@[k] == lev(
                    short@.take(k),
                    long@.take(i as int),
                ),
                forall|k: int| 0 <= k <= n ==> lev(short@.take(k), long@.take(i as int))
                    <= long@.len(),
            decreases n - jj,
        {
            let col: usize = jj + 1;
            let a_char: char = short[col - 1];
            let old_cell: usize = row[col];
            proof {
                lemma_lev_step(short@, long@, col as int, i as int);
            }
            let new_val: usize;
            if a_char == b_char {
                new_val = up_left;
            } else {
                let mut mn: usize = up_left;
                let ins: usize = row[col - 1];
                if ins < mn {
                    mn = ins;
                }
                if old_cell < mn {
                    mn = old_cell;
                }
                proof {
                    lemma_lev_le_max_len(short@.take(col as int), long@.take(i + 1));
                }
                new_val = mn + 1;
            }
            up_left = old_cell;
            row.set(col, new_val);
            jj = col;
        }
        i += 1;
    }
    proof {
        assert(short@.take(n as int) =~= short@);
        assert(long@.take(m as int) =~= long@);
    }
    row[n]
}

/// A distance value saturated just above the bound `m`: values up to `m` are
/// kept exactly, anything larger collapses to the sentinel `m + 1`.
pub open spec fn capped(x: nat, m: nat) -> nat {
    if x <= m {
        x
    } else {
        m + 1
    }
}

/// If every cell of one row of the dynamic program exceeds `m`, so does every
/// cell of the next row: no alignment can recover once the whole band is over
/// the bound.
proof fn lemma_lev_row_stuck(a: Seq<char>, b: Seq<char>, i: int, m: nat, j: int)
    requires
        0 <= i < b.len(),
        0 <= j <= a.len(),
        forall|k: int| 0 <= k <= a.len() ==> lev(a.take(k), b.take(i)) > m,
    ensures
        lev(a.take(j), b.take(i + 1)) > m,
    decreases j,
{
    lemma_lev_base(a, b, 0, i);
    lemma_lev_base(a, b, 0, i + 1);
    if j > 0 {
        lemma_lev_row_stuck(a, b, i, m, j - 1);
        lemma_lev_step(a, b, j, i);
    }
}

/// Once every cell of a row exceeds `m`, the final distance exceeds `m`.
proof fn lemma_lev_stuck(a: Seq<char>, b: Seq<char>, i: int, m: nat)
    requires
        0 <= i <= b.len(),
        forall|k: int| 0 <= k <= a.len() ==> lev(a.take(k), b.take(i)) > m,
    ensures
        lev(a, b) > m,
    decreases b.len() - i,
{
    if i == b.len() {
        assert(a.take(a.len() as int) =~= a);
        assert(b.take(b.len() as int) =~= b);
        assert(lev(a.take(a.len() as int), b.take(i)) > m);
    } else {
        assert forall|k: int| 0 <= k <= a.len() implies lev(a.take(k), b.take(i + 1)) > m by {
            lemma_lev_row_stuck(a, b, i, m, k);
        }
        lemma_lev_stuck(a, b, i + 1, m);
    }
}

/// The banded dynamic program: each row cell holds the distance of the
/// corresponding prefixes saturated at `max + 1`, and only the cells within
/// `max` of the diagonal are ever recomputed.
fn dp_distance_banded(short: &Vec<char>, long: &Vec<char>, max: usize) -> (r: Option<usize>)
    requires
        short@.len() <= long@.len(),
        long@.len() - short@.len() <= max,
        max < long@.len(),
    ensures
        match r {
            Some(d) => d == lev(short@, long@) && lev(short@, long@) <= max,
            None => lev(short@, long@) > max,
        },
{
    let n: usize = short.len();
    let m: usize = long.len();
    let mut row: Vec<usize> = Vec::new();
    row.push(0);
    let mut j: usize = 0;
    while j < n
        invariant
            n == short@.len() <= long@.len() == m,
            max < m,
            j <= n,
            row@.len() == j + 1,
            forall|k: int| 0 <= k <= j ==> row@[k] == capped(k as nat, max as nat),
        decreases n - j,
    {
        j += 1;
        if j <= max {
            row.push(j);
        } else {
            row.push(max + 1);
        }
    }
    proof {
        assert forall|k: int| 0 <= k <= n implies row@[k] == capped(
            lev(short@.take(k), long@.take(0)),
            max as nat,
        ) by {
            lemma_lev_base(short@, long@, k, 0);
        }
    }
    let mut i: usize = 0;
    while i < m
        invariant
            n == short@.len() <= long@.len() == m,
            m - n <= max < m,
            i <= m,
            row@.len() == n + 1,
            forall|k: int| 0 <= k <= n ==> row@[k] == capped(
                lev(short@.take(k), long@.take(i as int)),
                max as nat,
            ),
        decreases m - i,
    {
        let b_char: char = long[i];
        let lo: usize = if i + 1 > max {
            i + 1 - max
        } else {
            1
        };
        let hi: usize = if n <= i + 1 {
            n
        } else if n - (i + 1) <= max {
            n
        } else {
            i + 1 + max
        };
        assert(1 <= lo && lo <= hi && hi <= n);
        let mut up_left: usize = row[lo - 1];
        if lo == 1 {
            if i + 1 <= max {
                row.set(0, i + 1);
            } else {
                row.set(0, max + 1);
            }
        } else {
            row.set(lo - 1, max + 1);
        }
        proof {
            lemma_lev_base(short@, long@, 0, i + 1);
            assert forall|k: int| 0 <= k < lo implies row@[k] == capped(
                lev(short@.take(k), long@.take(i + 1)),
                max as nat,
            ) by {
                if k > 0 {
                    lemma_lev_ge_len_diff(short@.take(k), long@.take(i as int));
                    lemma_lev_ge_len_diff(short@.take(k), long@.take(i + 1));
                }
            }
            assert forall|k: int| 0 < k < lo implies row@[k] == max + 1 by {
                lemma_lev_ge_len_diff(short@.take(k), long@.take(i + 1));
            }
        }
        let mut best: usize = row[0];
        let mut jj: usize = lo - 1;
        while jj < hi
            invariant
                n == short@.len() <= long@.len() == m,
                m - n <= max < m,
                i < m,
                b_char == long@[i as int],
                lo >= 1,
                lo - 1 <= jj <= hi <= n,
                row@.len() == n + 1,
                up_left == capped(lev(short@.take(jj as int), long@.take(i as int)), max as nat),
                forall|k: int| 0 <= k <= jj ==> row@[k] == capped(
                    lev(short@.take(k), long@.take(i + 1)),
                    max as nat,
                ),
                forall|k: int| jj < k <= n ==> row@[k] == capped(
                    lev(short@.take(k), long@.take(i as int)),
                    max as nat,
                ),
                forall|k: int| 0 <= k <= jj ==> row@[k] >= best,
                best <= max + 1,
            decreases hi - jj,
        {
            let col: usize = jj + 1;
            let a_char: char = short[col - 1];
            let old_cell: usize = row[col];
            proof {
                lemma_lev_step(short@, long@, col as int, i as int);
            }
            let new_val: usize;
            if a_char == b_char {
                new_val = up_left;
            } else {
                let mut mn: usize = up_left;
                let ins: usize = row[col - 1];
                if ins < mn {
                    mn = ins;
                }
                if old_cell < mn {
                    mn = old_cell;
                }
                if mn >= max {
                    new_val = max + 1;
                } else {
                    new_val = mn + 1;
                }
            }
            proof {
                assert(new_val == capped(lev(short@.take(col as int), long@.take(i + 1)), max as nat));
            }
            if new_val < best {
                best = new_val;
            }
            up_left = old_cell;
            row.set(col, new_val);
            jj = col;
        }
        proof {
            assert forall|k: int| hi < k <= n implies row@[k] == capped(
                lev(short@.take(k), long@.take(i + 1)),
                max as nat,
            ) by {
                lemma_lev_ge_len_diff(short@.take(k), long@.take(i as int));
                lemma_lev_ge_len_diff(short@.take(k), long@.take(i + 1));
            }
        }
        if best > max {
            proof {
                assert forall|k: int| 0 <= k <= n implies lev(short@.take(k), long@.take(i + 1))
                    > max by {
                    assert(row@[k] == capped(lev(short@.take(k), long@.take(i + 1)), max as nat));
                    if k <= jj {
                        assert(row@[k] >= best);
                    } else {
                        lemma_lev_ge_len_diff(short@.take(k), long@.take(i + 1));
                    }
                }
                lemma_lev_stuck(short@, long@, i + 1, max as nat);
            }
            return None;
        }
        i += 1;
    }
    proof {
        assert(short@.take(n as int) =~= short@);
        assert(long@.take(m as int) =~= long@);
    }
    let res: usize = row[n];
    if res > max {
        None
    } else {
        Some(res)
    }
}

/// The exact Levenshtein distance between `a` and `b`, counted in Unicode
/// scalar values: the minimum number of single-character insertions,
/// deletions and substitutions that turn one string into the other.
pub fn levenshtein_distance(a: &str, b: &str) -> (d: usize)
    ensures
        d == lev(a@, b@),
{
    let av: Vec<char> = chars_vec(a);
    let bv: Vec<char> = chars_vec(b);
    if av.len() <= bv.len() {
        dp_distance(&av, &bv)
    } else {
        proof {
            lemma_lev_symmetric(a@, b@);
        }
        dp_distance(&bv, &av)
    }
}

/// The Levenshtein distance of `a` and `b` when it is at most `max_distance`,
/// and `None` when it exceeds the bound.
///
/// The length difference of the operands rejects a pair outright; otherwise
/// the computation stays within a diagonal band of the distance matrix and
/// stops as soon as the bound is provably exceeded.  Whenever a value is
/// returned it agrees exactly with `levenshtein_distance`.
pub fn levenshtein_distance_with_max(a: &str, b: &str, max_distance: usize) -> (r: Option<usize>)
    ensures
        match r {
            Some(d) => d == lev(a@, b@) && lev(a@, b@) <= max_distance,
            None => lev(a@, b@) > max_distance,
        },
{
    let av: Vec<char> = chars_vec(a);
    let bv: Vec<char> = chars_vec(b);
    proof {
        lemma_lev_symmetric(a@, b@);
    }
    if av.len() <= bv.len() {
        bounded_distance(&av, &bv, max_distance)
    } else {
        bounded_distance(&bv, &av, max_distance)
    }
}

/// Bounded distance on character vectors, the shorter operand first.
fn bounded_distance(short: &Vec<char>, long: &Vec<char>, max: usize) -> (r: Option<usize>)
    requires
        short@.len() <= long@.len(),
    ensures
        match r {
            Some(d) => d == lev(short@, long@) && lev(short@, long@) <= max,
            None => lev(short@, long@) > max,
        },
{
    let n: usize = short.len();
    let m: usize = long.len();
    if m - n > max {
        proof {
            lemma_lev_ge_len_diff(short@, long@);
        }
        return None;
    }
    if max >= m {
        proof {
            lemma_lev_le_max_len(short@, long@);
        }
        return Some(dp_distance(short, long));
    }
    dp_distance_banded(short, long, max)
}

} // verus!
