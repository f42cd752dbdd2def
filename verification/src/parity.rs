//! Solvability of a configuration: the parity of the permutation of the
//! flattened grid (counted as inversions, which has the same parity as the
//! number of transpositions that sorts it), matched against the parity of
//! the blank's distance from its home corner, under the size-dependent rule.

use crate::board::lemma_flat_index_compose;
use crate::board::lemma_flat_index_decompose;
use crate::board::swap_flat;
use crate::board::SlidingPuzzle;
use vstd::arithmetic::div_mod::lemma_fundamental_div_mod;
use vstd::arithmetic::div_mod::lemma_fundamental_div_mod_converse;
use vstd::prelude::*;

verus! {

/// Whether a count is odd.
pub open spec fn odd(n: int) -> bool {
    n % 2 == 1
}

/// Parities of sums: a sum is odd exactly when one summand is.
pub proof fn lemma_odd_add(a: int, b: int)
    requires
        0 <= a,
        0 <= b,
    ensures
        odd(a + b) == (odd(a) != odd(b)),
{
    lemma_fundamental_div_mod(a, 2);
    lemma_fundamental_div_mod(b, 2);
    let qa = a / 2;
    let ra = a % 2;
    let qb = b / 2;
    let rb = b % 2;
    if ra + rb < 2 {
        lemma_fundamental_div_mod_converse(a + b, 2, qa + qb, ra + rb);
    } else {
        lemma_fundamental_div_mod_converse(a + b, 2, qa + qb + 1, ra + rb - 2);
    }
}

/// How many entries of `s` at positions `j` and beyond are less than `v`.
pub open spec fn count_lt_from(s: Seq<usize>, j: int, v: usize) -> nat
    decreases s.len() - j,
{
    if j < 0 || j >= s.len() {
        0
    } else {
        (if s[j] < v {
            1nat
        } else {
            0nat
        }) + count_lt_from(s, j + 1, v)
    }
}

/// The inversions of `s` among positions `i` and beyond: pairs of positions
/// `i <= p < q` whose entries are out of order.
pub open spec fn inversions_from(s: Seq<usize>, i: int) -> nat
    decreases s.len() - i,
{
    if i < 0 || i >= s.len() {
        0
    } else {
        count_lt_from(s, i + 1, s[i]) + inversions_from(s, i + 1)
    }
}

/// The number of inversions of the whole sequence. The minimum number of
/// transpositions that sorts the sequence has the same parity.
pub open spec fn inversions(s: Seq<usize>) -> nat {
    inversions_from(s, 0)
}

/// Counting below `v` from `j` reads nothing before `j`: sequences that
/// agree from `j` on count alike.
proof fn lemma_count_lt_agree(s1: Seq<usize>, s2: Seq<usize>, j: int, v: usize)
    requires
        s1.len() == s2.len(),
        forall|m: int| j <= m < s1.len() ==> s1[m] == s2[m],
    ensures
        count_lt_from(s1, j, v) == count_lt_from(s2, j, v),
    decreases s1.len() - j,
{
    if 0 <= j && j < s1.len() {
        lemma_count_lt_agree(s1, s2, j + 1, v);
    }
}

/// Inversions from `i` read nothing before `i`: sequences that agree from
/// `i` on have the same count.
proof fn lemma_inversions_agree(s1: Seq<usize>, s2: Seq<usize>, i: int)
    requires
        s1.len() == s2.len(),
        forall|m: int| i <= m < s1.len() ==> s1[m] == s2[m],
    ensures
        inversions_from(s1, i) == inversions_from(s2, i),
    decreases s1.len() - i,
{
    if 0 <= i && i < s1.len() {
        lemma_count_lt_agree(s1, s2, i + 1, s1[i]);
        lemma_inversions_agree(s1, s2, i + 1);
    }
}

/// Exchanging two neighbours at or after `j` does not change how many
/// entries from `j` on lie below `v`.
proof fn lemma_count_lt_swap_adjacent(s: Seq<usize>, k: int, j: int, v: usize)
    requires
        0 <= j <= k,
        k + 1 < s.len(),
    ensures
        count_lt_from(swap_flat(s, k, k + 1), j, v) == count_lt_from(s, j, v),
    decreases k - j,
{
    let s2 = swap_flat(s, k, k + 1);
    if j == k {
        assert(count_lt_from(s, k + 1, v) == (if s[k + 1] < v {
            1nat
        } else {
            0nat
        }) + count_lt_from(s, k + 2, v));
        assert(count_lt_from(s2, k + 1, v) == (if s2[k + 1] < v {
            1nat
        } else {
            0nat
        }) + count_lt_from(s2, k + 2, v));
        lemma_count_lt_agree(s2, s, k + 2, v);
    } else {
        lemma_count_lt_swap_adjacent(s, k, j + 1, v);
    }
}

/// Exchanging two distinct neighbouring entries flips the parity of the
/// inversion count from any position at or before them.
proof fn lemma_adjacent_swap_flips_from(s: Seq<usize>, k: int, i: int)
    requires
        0 <= i <= k,
        k + 1 < s.len(),
        s[k] != s[k + 1],
    ensures
        odd(inversions_from(swap_flat(s, k, k + 1), i) as int) == !odd(
            inversions_from(s, i) as int,
        ),
    decreases k - i,
{
    let s2 = swap_flat(s, k, k + 1);
    if i == k {
        assert(inversions_from(s, k + 1) == count_lt_from(s, k + 2, s[k + 1]) + inversions_from(
            s,
            k + 2,
        ));
        assert(inversions_from(s2, k + 1) == count_lt_from(s2, k + 2, s2[k + 1])
            + inversions_from(s2, k + 2));
        assert(count_lt_from(s, k + 1, s[k]) == (if s[k + 1] < s[k] {
            1nat
        } else {
            0nat
        }) + count_lt_from(s, k + 2, s[k]));
        assert(count_lt_from(s2, k + 1, s2[k]) == (if s2[k + 1] < s2[k] {
            1nat
        } else {
            0nat
        }) + count_lt_from(s2, k + 2, s2[k]));
        lemma_count_lt_agree(s2, s, k + 2, s[k]);
        lemma_count_lt_agree(s2, s, k + 2, s[k + 1]);
        lemma_inversions_agree(s2, s, k + 2);
        let c1 = count_lt_from(s, k + 2, s[k]);
        let c2 = count_lt_from(s, k + 2, s[k + 1]);
        let rest = inversions_from(s, k + 2);
        let down = if s[k + 1] < s[k] {
            1nat
        } else {
            0nat
        };
        let up = if s[k] < s[k + 1] {
            1nat
        } else {
            0nat
        };
        assert(inversions_from(s, k) == down + c1 + c2 + rest);
        assert(inversions_from(s2, k) == up + c2 + c1 + rest);
        assert(up + down == 1);
        lemma_odd_add((down + c1) as int, (c2 + rest) as int);
        lemma_odd_add(down as int, c1 as int);
        lemma_odd_add((up + c2) as int, (c1 + rest) as int);
        lemma_odd_add(up as int, c2 as int);
        lemma_odd_add(c2 as int, rest as int);
        lemma_odd_add(c1 as int, rest as int);
    } else {
        lemma_adjacent_swap_flips_from(s, k, i + 1);
        lemma_count_lt_swap_adjacent(s, k, i + 1, s[i]);
        let ci = count_lt_from(s, i + 1, s[i]);
        lemma_odd_add(ci as int, inversions_from(s, i + 1) as int);
        lemma_odd_add(ci as int, inversions_from(s2, i + 1) as int);
    }
}

/// Exchanging two cells leaves a duplicate-free sequence duplicate-free.
pub proof fn lemma_swap_preserves_no_dup(s: Seq<usize>, i: int, j: int)
    requires
        0 <= i < s.len(),
        0 <= j < s.len(),
        s.no_duplicates(),
    ensures
        swap_flat(s, i, j).no_duplicates(),
{
    let s2 = swap_flat(s, i, j);
    assert forall|p: int, q: int|
        0 <= p < s2.len() && 0 <= q < s2.len() && p != q implies s2[p] != s2[q] by {
        assert(s2[p] == if p == j {
            s[i]
        } else if p == i {
            s[j]
        } else {
            s[p]
        });
        assert(s2[q] == if q == j {
            s[i]
        } else if q == i {
            s[j]
        } else {
            s[q]
        });
    }
}

/// The swap of two cells does not depend on the order they are named in.
pub proof fn lemma_swap_flat_comm(s: Seq<usize>, i: int, j: int)
    requires
        0 <= i < s.len(),
        0 <= j < s.len(),
    ensures
        swap_flat(s, i, j) == swap_flat(s, j, i),
{
    assert(swap_flat(s, i, j) =~= swap_flat(s, j, i));
}

/// Law: exchanging any two distinct cells of a duplicate-free sequence
/// flips the parity of its inversion count — one transposition always
/// changes the permutation's sign.
pub proof fn lemma_swap_flips_inversions(s: Seq<usize>, i: int, j: int)
    requires
        0 <= i < j < s.len(),
        s.no_duplicates(),
    ensures
        odd(inversions(swap_flat(s, i, j)) as int) == !odd(inversions(s) as int),
    decreases j - i,
{
    if j == i + 1 {
        lemma_adjacent_swap_flips_from(s, i, 0);
    } else {
        let s1 = swap_flat(s, j - 1, j);
        let s2 = swap_flat(s1, i, j - 1);
        let s3 = swap_flat(s2, j - 1, j);
        lemma_adjacent_swap_flips_from(s, j - 1, 0);
        lemma_swap_preserves_no_dup(s, j - 1, j);
        lemma_swap_flips_inversions(s1, i, j - 1);
        lemma_swap_preserves_no_dup(s1, i, j - 1);
        lemma_adjacent_swap_flips_from(s2, j - 1, 0);
        assert(s3 =~= swap_flat(s, i, j));
    }
}

/// The blank's Manhattan distance from the bottom-right corner, its home in
/// the sorted configuration, for a blank at flat index `bi`.
pub open spec fn blank_dist(width: int, height: int, bi: int) -> int {
    (width - 1 - bi / height) + (height - 1 - bi % height)
}

/// Whether the two parities agree: the parity of the inversion count of the
/// flattened configuration against the parity of the blank's distance from
/// its home corner.
pub open spec fn parity_match(s: Seq<usize>, width: int, height: int, bi: int) -> bool {
    odd(blank_dist(width, height, bi)) == odd(inversions(s) as int)
}

/// The size-dependent rule turning the parity comparison into the outcome.
/// The three regimes were validated against brute-force reachability on
/// small boards and are not to be merged or simplified.
pub open spec fn solvable_rule(width: int, height: int, parity: bool) -> bool {
    let mn = if width <= height {
        width
    } else {
        height
    };
    let mx = if width <= height {
        height
    } else {
        width
    };
    if mn <= 3 && mx <= 3 {
        !parity
    } else if mn <= 3 {
        parity == (mx % 4 < 2)
    } else {
        parity
    }
}

/// Whether the flattened configuration `s`, with the blank at flat index
/// `bi`, is reachable from the sorted configuration by legal moves.
pub open spec fn solvable_flat(s: Seq<usize>, width: int, height: int, bi: int) -> bool {
    solvable_rule(width, height, parity_match(s, width, height, bi))
}

impl SlidingPuzzle {
    /// Whether the board is reachable from the sorted configuration by
    /// legal moves.
    pub open spec fn solvable(self) -> bool {
        solvable_flat(self.flat(), self.width as int, self.height as int, self.blank_index())
    }

    /// The solvability test: compares the parity of the permutation of the
    /// flattened grid with the parity of the blank's distance from its home
    /// corner, then applies the size-dependent rule.
    pub fn is_valid_field(&self) -> (r: bool)
        requires
            self.wf(),
        ensures
            r == self.solvable(),
    {
        let s = Ghost(self.flat());
        let n = self.size();
        let mut swaps_odd = false;
        let mut i: usize = 0;
        while i < n
            invariant
                self.wf(),
                n == self.area(),
                i <= n,
                s@ == self.flat(),
                swaps_odd == (odd(inversions(s@) as int) != odd(
                    inversions_from(s@, i as int) as int,
                )),
            decreases n - i,
        {
            let v = self.field[i];
            let mut cnt_odd = false;
            let mut j: usize = i + 1;
            while j < n
                invariant
                    self.wf(),
                    n == self.area(),
                    i < n,
                    s@ == self.flat(),
                    v == s@[i as int],
                    i + 1 <= j <= n,
                    cnt_odd == (odd(count_lt_from(s@, i as int + 1, v) as int) != odd(
                        count_lt_from(s@, j as int, v) as int,
                    )),
                decreases n - j,
            {
                if self.field[j] < v {
                    cnt_odd = !cnt_odd;
                }
                j = j + 1;
            }
            if cnt_odd {
                swaps_odd = !swaps_odd;
            }
            proof {
                lemma_odd_add(
                    count_lt_from(s@, i as int + 1, v) as int,
                    inversions_from(s@, i as int + 1) as int,
                );
            }
            i = i + 1;
        }
        let (bx, by) = self.index_blank();
        proof {
            lemma_flat_index_compose(
                self.width as int,
                self.height as int,
                bx as int,
                by as int,
            );
            assert(self.width as int + self.height as int <= self.width as int * (
            self.height as int)) by (nonlinear_arith)
                requires
                    2 <= self.width as int,
                    2 <= self.height as int,
            {
            }
        }
        let blank_offset_x = self.width - bx - 1;
        let blank_offset_y = self.height - by - 1;
        let blank_odd = (blank_offset_x + blank_offset_y) % 2 == 1;
        let parity = blank_odd == swaps_odd;
        let mn = if self.width <= self.height {
            self.width
        } else {
            self.height
        };
        let mx = if self.width <= self.height {
            self.height
        } else {
            self.width
        };
        if mn <= 3 && mx <= 3 {
            !parity
        } else if mn <= 3 {
            parity == (mx % 4 < 2)
        } else {
            parity
        }
    }
}

/// Law: one legal player move — exchanging the blank at flat index `bi`
/// with an orthogonally adjacent cell at flat index `ti` — never changes
/// the solvability outcome: both the permutation parity and the blank
/// distance parity flip, so their comparison is preserved.
pub proof fn lemma_legal_move_preserves_solvable(
    s: Seq<usize>,
    width: int,
    height: int,
    bi: int,
    ti: int,
)
    requires
        2 <= width,
        2 <= height,
        s.len() == width * height,
        s.no_duplicates(),
        0 <= bi < s.len(),
        0 <= ti < s.len(),
        (ti == bi + 1 && bi % height < height - 1) || (ti == bi - 1 && bi % height > 0) || ti == bi
            + height || ti == bi - height,
    ensures
        solvable_flat(swap_flat(s, bi, ti), width, height, ti) == solvable_flat(
            s,
            width,
            height,
            bi,
        ),
{
    lemma_flat_index_decompose(width, height, bi);
    let q = bi / height;
    let r = bi % height;
    if ti == bi + 1 && r < height - 1 {
        lemma_fundamental_div_mod_converse(ti, height, q, r + 1);
    } else if ti == bi - 1 && r > 0 {
        lemma_fundamental_div_mod_converse(ti, height, q, r - 1);
    } else if ti == bi + height {
        assert((q + 1) * height == q * height + height) by (nonlinear_arith) {
        }
        lemma_fundamental_div_mod_converse(ti, height, q + 1, r);
    } else {
        assert((q - 1) * height == q * height - height) by (nonlinear_arith) {
        }
        lemma_fundamental_div_mod_converse(ti, height, q - 1, r);
    }
    assert(blank_dist(width, height, ti) == blank_dist(width, height, bi) + 1 || blank_dist(
        width,
        height,
        ti,
    ) == blank_dist(width, height, bi) - 1);
    if bi < ti {
        lemma_swap_flips_inversions(s, bi, ti);
    } else {
        lemma_swap_flat_comm(s, bi, ti);
        lemma_swap_flips_inversions(s, ti, bi);
    }
}

} // verus!
