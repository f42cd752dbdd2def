//! The shuffle engine: a uniformly random permutation pass, a retry when it
//! lands on the solved configuration, and a parity-correction loop that
//! swaps two random distinct cells until the configuration is reachable
//! from the solved one.

use crate::board::lemma_flat_index_compose;
use crate::board::swap_flat;
use crate::board::PuzzleError;
use crate::board::SlidingPuzzle;
use rand::seq::SliceRandom;
use rand::Rng;
use vstd::arithmetic::div_mod::lemma_fundamental_div_mod_converse;
use vstd::arithmetic::div_mod::lemma_small_mod;
use vstd::prelude::*;

verus! {

/// The safety cap on shuffle retries. The loop finishes after an expected
/// handful of iterations, so running into this cap signals a broken random
/// source, an internal error, rather than bad luck.
pub const SHUFFLE_CAP: usize = 10000;

/// Relies on rand's `SliceRandom::shuffle`, driven by `rand::thread_rng`:
/// it permutes the elements of the slice in place by element swaps, so the
/// length and the multiset of elements are unchanged, whatever values the
/// random source produced.
#[verifier::external_body]
fn shuffle_vec(v: &mut Vec<usize>)
    ensures
        final(v)@.len() == old(v)@.len(),
        final(v)@.to_multiset() == old(v)@.to_multiset(),
{
    v.shuffle(&mut rand::thread_rng());
}

/// Relies on rand's `Rng::gen_range`, driven by `rand::thread_rng`: it
/// returns a value drawn from the given range, here `0..n`, which is
/// non-empty because `n` is at least one.
#[verifier::external_body]
pub(crate) fn random_below(n: usize) -> (r: usize)
    requires
        1 <= n,
    ensures
        r < n,
{
    rand::thread_rng().gen_range(0..n)
}

/// A board with the same dimensions whose flattened contents are a
/// rearrangement of a well-formed board's contents is well-formed itself.
proof fn lemma_wf_after_permute(pre: SlidingPuzzle, post: SlidingPuzzle)
    requires
        pre.wf(),
        post.width == pre.width,
        post.height == pre.height,
        post.flat().len() == pre.flat().len(),
        post.flat().to_multiset() == pre.flat().to_multiset(),
    ensures
        post.wf(),
{
    broadcast use vstd::seq_lib::group_to_multiset_ensures;

    let a = pre.flat();
    let b = post.flat();
    assert forall|i: int| 0 <= i < b.len() implies 1 <= #[trigger] b[i] <= b.len() by {
        assert(b.contains(b[i]));
        assert(b.to_multiset().count(b[i]) > 0);
        assert(a.to_multiset().count(b[i]) > 0);
        assert(a.contains(b[i]));
        let j = choose|j: int| 0 <= j < a.len() && a[j] == b[i];
        assert(1 <= a[j] <= a.len());
    }
    a.lemma_multiset_has_no_duplicates();
    assert forall|x: usize| b.to_multiset().contains(x) implies b.to_multiset().count(x) == 1 by {
        assert(a.to_multiset().count(x) == b.to_multiset().count(x));
    }
    b.lemma_multiset_has_no_duplicates_conv();
    let k = choose|k: int| 0 <= k < a.len() && a[k] == pre.area();
    assert(a.contains(a[k]));
    assert(a.to_multiset().count(a[k]) > 0);
    assert(b.to_multiset().count(a[k]) > 0);
    assert(b.contains(a[k]));
    let m = choose|m: int| 0 <= m < b.len() && b[m] == a[k];
    assert(b[m] == post.area());
}

/// Adding a shift of `1..m` to a value below `m` and reducing modulo `m`
/// never gives the value back.
proof fn lemma_mod_shift_ne(x: int, d: int, m: int)
    requires
        0 <= x < m,
        1 <= d < m,
    ensures
        (x + d) % m != x,
{
    if x + d < m {
        lemma_small_mod((x + d) as nat, m as nat);
    } else {
        lemma_fundamental_div_mod_converse(x + d, m, 1, x + d - m);
    }
}

impl SlidingPuzzle {
    /// One corrective transposition: exchanges two randomly chosen cells in
    /// distinct columns and distinct rows — a direct array swap, not a legal
    /// player move — flipping the permutation parity.
    pub fn shuffle_once(&mut self)
        requires
            old(self).wf(),
        ensures
            final(self).wf(),
            final(self).width == old(self).width,
            final(self).height == old(self).height,
            exists|x1: int, y1: int, x2: int, y2: int|
                0 <= x1 < old(self).width && 0 <= y1 < old(self).height && 0 <= x2 < old(
                    self,
                ).width && 0 <= y2 < old(self).height && x1 != x2 && y1 != y2 && final(self).flat()
                    == #[trigger] swap_flat(
                    old(self).flat(),
                    old(self).idx(x1, y1),
                    old(self).idx(x2, y2),
                ),
    {
        let w = self.width;
        let h = self.height;
        proof {
            assert(2 * w as int <= w as int * (h as int) && 2 * h as int <= w as int * (
            h as int)) by (nonlinear_arith)
                requires
                    2 <= w as int,
                    2 <= h as int,
            {
            }
        }
        let x1 = random_below(w);
        let dx = random_below(w - 1);
        let x2 = (x1 + 1 + dx) % w;
        let y1 = random_below(h);
        let dy = random_below(h - 1);
        let y2 = (y1 + 1 + dy) % h;
        proof {
            lemma_mod_shift_ne(x1 as int, 1 + dx as int, w as int);
            lemma_mod_shift_ne(y1 as int, 1 + dy as int, h as int);
            lemma_flat_index_compose(w as int, h as int, x1 as int, y1 as int);
            lemma_flat_index_compose(w as int, h as int, x2 as int, y2 as int);
        }
        self.swap(x1, y1, x2, y2);
        proof {
            assert(final(self).flat() == swap_flat(
                old(self).flat(),
                old(self).idx(x1 as int, y1 as int),
                old(self).idx(x2 as int, y2 as int),
            ));
        }
    }

    /// The shuffle: randomly permutes the grid, retries if that happens to
    /// reproduce the solved configuration, and then applies corrective
    /// transpositions until the configuration is solvability-valid. On
    /// success the board is a valid, not-yet-solved configuration; the
    /// safety cap turns a broken random source into a loud internal error
    /// instead of an endless loop.
    pub fn shuffle(&mut self) -> (r: Result<(), PuzzleError>)
        requires
            old(self).wf(),
        ensures
            final(self).wf(),
            final(self).width == old(self).width,
            final(self).height == old(self).height,
            r is Ok ==> !final(self).is_sorted_spec() && final(self).solvable(),
            r is Err ==> r->Err_0 == PuzzleError::InternalInvariantViolation,
    {
        let mut tries: usize = 0;
        while tries < SHUFFLE_CAP
            invariant
                self.wf(),
                self.width == old(self).width,
                self.height == old(self).height,
            decreases SHUFFLE_CAP - tries,
        {
            let ghost pre = *self;
            shuffle_vec(&mut self.field);
            proof {
                lemma_wf_after_permute(pre, *self);
            }
            if !self.is_sorted() {
                let mut fixes: usize = 0;
                while fixes < SHUFFLE_CAP
                    invariant
                        self.wf(),
                        self.width == old(self).width,
                        self.height == old(self).height,
                    decreases SHUFFLE_CAP - fixes,
                {
                    if self.is_sorted() {
                        break ;
                    }
                    if self.is_valid_field() {
                        return Ok(());
                    }
                    self.shuffle_once();
                    fixes = fixes + 1;
                }
            }
            tries = tries + 1;
        }
        Err(PuzzleError::InternalInvariantViolation)
    }
}

} // verus!
