//! Applying a player's move: the blank walks one step in a direction,
//! exchanging places with the adjacent tile, and requests pointing off the
//! edge of the board are silently ignored.

use crate::board::lemma_flat_index_compose;
use crate::board::swap_flat;
use crate::board::SlidingPuzzle;
use crate::parity::lemma_legal_move_preserves_solvable;
use crate::shuffle::random_below;
use vstd::prelude::*;

verus! {

/// A direction of movement for the blank, carrying a payload (for example
/// the label of the tile that lies that way).
#[derive(Clone, Copy, Debug, PartialEq, Eq)]
pub enum Direction<T> {
    Up(T),
    Left(T),
    Down(T),
    Right(T),
}

impl<T> Direction<T> {
    /// The payload carried with the direction.
    pub open spec fn spec_value(self) -> T {
        match self {
            Direction::Up(t) => t,
            Direction::Left(t) => t,
            Direction::Down(t) => t,
            Direction::Right(t) => t,
        }
    }

    /// The payload carried with the direction.
    pub fn get_value(&self) -> (r: &T)
        ensures
            *r == self.spec_value(),
    {
        match self {
            Direction::Up(t) => t,
            Direction::Left(t) => t,
            Direction::Down(t) => t,
            Direction::Right(t) => t,
        }
    }
}

/// The flat index one step from `bi` in the given direction, on a board of
/// the given column height.
pub open spec fn step_target<T>(dir: Direction<T>, bi: int, height: int) -> int {
    match dir {
        Direction::Up(_) => bi - 1,
        Direction::Left(_) => bi - height,
        Direction::Down(_) => bi + 1,
        Direction::Right(_) => bi + height,
    }
}

/// Whether the step from `bi` in the given direction stays on the board.
pub open spec fn step_legal<T>(dir: Direction<T>, bi: int, width: int, height: int) -> bool {
    match dir {
        Direction::Up(_) => bi % height > 0,
        Direction::Left(_) => bi >= height,
        Direction::Down(_) => bi % height < height - 1,
        Direction::Right(_) => bi + height < width * height,
    }
}

impl SlidingPuzzle {
    /// Moves the blank one step in the given direction if the adjacent cell
    /// exists, swapping it with the tile found there; a request pointing off
    /// the edge leaves the board exactly as it was. Returns whether a tile
    /// actually moved. Either way the solvability outcome is unchanged.
    pub fn apply_move<T>(&mut self, dir: &Direction<T>) -> (moved: bool)
        requires
            old(self).wf(),
        ensures
            final(self).wf(),
            final(self).width == old(self).width,
            final(self).height == old(self).height,
            moved == step_legal(
                *dir,
                old(self).blank_index(),
                old(self).width as int,
                old(self).height as int,
            ),
            !moved ==> final(self).flat() == old(self).flat(),
            moved ==> final(self).flat() == swap_flat(
                old(self).flat(),
                old(self).blank_index(),
                step_target(*dir, old(self).blank_index(), old(self).height as int),
            ),
            moved ==> final(self).blank_index() == step_target(
                *dir,
                old(self).blank_index(),
                old(self).height as int,
            ),
            final(self).solvable() == old(self).solvable(),
    {
        let w = self.width;
        let h = self.height;
        let (bx, by) = self.index_blank();
        let ghost bi = self.blank_index();
        proof {
            lemma_flat_index_compose(w as int, h as int, bx as int, by as int);
        }
        match dir {
            Direction::Up(_) => {
                if by > 0 {
                    proof {
                        lemma_flat_index_compose(
                            w as int,
                            h as int,
                            bx as int,
                            by as int - 1,
                        );
                    }
                    self.swap(bx, by, bx, by - 1);
                    proof {
                        self.move_done(*old(self), bi, bi - 1);
                    }
                    true
                } else {
                    false
                }
            },
            Direction::Left(_) => {
                if bx > 0 {
                    proof {
                        lemma_flat_index_compose(
                            w as int,
                            h as int,
                            bx as int - 1,
                            by as int,
                        );
                        assert((bx as int - 1) * (h as int) == bx as int * (h as int) - h as int)
                            by (nonlinear_arith) {
                        }
                    }
                    self.swap(bx, by, bx - 1, by);
                    proof {
                        self.move_done(*old(self), bi, bi - h as int);
                    }
                    true
                } else {
                    proof {
                        assert(bx as int * (h as int) == 0) by (nonlinear_arith)
                            requires
                                bx as int == 0,
                        {
                        }
                        assert(!step_legal(*dir, bi, w as int, h as int));
                    }
                    false
                }
            },
            Direction::Down(_) => {
                if by < h - 1 {
                    proof {
                        lemma_flat_index_compose(
                            w as int,
                            h as int,
                            bx as int,
                            by as int + 1,
                        );
                    }
                    self.swap(bx, by, bx, by + 1);
                    proof {
                        self.move_done(*old(self), bi, bi + 1);
                    }
                    true
                } else {
                    false
                }
            },
            Direction::Right(_) => {
                if bx < w - 1 {
                    proof {
                        lemma_flat_index_compose(
                            w as int,
                            h as int,
                            bx as int + 1,
                            by as int,
                        );
                        assert((bx as int + 1) * (h as int) == bx as int * (h as int) + h as int)
                            by (nonlinear_arith) {
                        }
                    }
                    self.swap(bx, by, bx + 1, by);
                    proof {
                        self.move_done(*old(self), bi, bi + h as int);
                    }
                    true
                } else {
                    proof {
                        assert((w as int - 1) * (h as int) + h as int == w as int * (h as int))
                            by (nonlinear_arith) {
                        }
                    }
                    false
                }
            },
        }
    }

    /// After a legal move from blank index `bi` to target `ti`, the blank is
    /// found at `ti` and the solvability outcome is unchanged.
    proof fn move_done(self, pre: SlidingPuzzle, bi: int, ti: int)
        requires
            pre.wf(),
            self.wf(),
            self.width == pre.width,
            self.height == pre.height,
            0 <= bi < pre.flat().len(),
            0 <= ti < pre.flat().len(),
            bi == pre.blank_index(),
            self.flat() == swap_flat(pre.flat(), bi, ti),
            (ti == bi + 1 && bi % (pre.height as int) < pre.height - 1) || (ti == bi - 1 && bi % (
            pre.height as int) > 0) || ti == bi + pre.height || ti == bi - pre.height,
        ensures
            self.blank_index() == ti,
            self.solvable() == pre.solvable(),
    {
        assert(self.flat()[ti] == pre.flat()[bi]);
        self.lemma_blank_index_unique(ti);
        lemma_legal_move_preserves_solvable(
            pre.flat(),
            pre.width as int,
            pre.height as int,
            bi,
            ti,
        );
    }

    /// One random step of the bot: it draws one of the four directions and
    /// applies it as a player move, so the board either stays as it was (the
    /// step pointed off the edge) or differs by one legal move; solvability
    /// is unchanged either way.
    pub fn bot_random_move(&mut self)
        requires
            old(self).wf(),
        ensures
            final(self).wf(),
            final(self).width == old(self).width,
            final(self).height == old(self).height,
            final(self).solvable() == old(self).solvable(),
            final(self).flat() == old(self).flat() || exists|d: Direction<()>|
                step_legal(
                    d,
                    old(self).blank_index(),
                    old(self).width as int,
                    old(self).height as int,
                ) && final(self).flat() == swap_flat(
                    old(self).flat(),
                    old(self).blank_index(),
                    #[trigger] step_target(d, old(self).blank_index(), old(self).height as int),
                ),
    {
        let roll = random_below(4);
        if roll == 0 {
            let dir = Direction::Left(());
            let moved = self.apply_move(&dir);
            proof {
                if moved {
                    assert(step_legal(
                        dir,
                        old(self).blank_index(),
                        old(self).width as int,
                        old(self).height as int,
                    ));
                }
            }
        } else if roll == 1 {
            let dir = Direction::Up(());
            let moved = self.apply_move(&dir);
            proof {
                if moved {
                    assert(step_legal(
                        dir,
                        old(self).blank_index(),
                        old(self).width as int,
                        old(self).height as int,
                    ));
                }
            }
        } else if roll == 2 {
            let dir = Direction::Right(());
            let moved = self.apply_move(&dir);
            proof {
                if moved {
                    assert(step_legal(
                        dir,
                        old(self).blank_index(),
                        old(self).width as int,
                        old(self).height as int,
                    ));
                }
            }
        } else {
            let dir = Direction::Down(());
            let moved = self.apply_move(&dir);
            proof {
                if moved {
                    assert(step_legal(
                        dir,
                        old(self).blank_index(),
                        old(self).width as int,
                        old(self).height as int,
                    ));
                }
            }
        }
    }
}

/// One tour of a unit square by the blank at flat index `p`: the four
/// exchanges made by moving it up, left, down and right in turn.
pub open spec fn quarter_turn(s: Seq<usize>, p: int, h: int) -> Seq<usize> {
    let s1 = swap_flat(s, p, p - 1);
    let s2 = swap_flat(s1, p - 1, p - 1 - h);
    let s3 = swap_flat(s2, p - 1 - h, p - h);
    swap_flat(s3, p - h, p)
}

/// Law (cycle of moves, one tour): moving the blank up, left, down and
/// right from a cell with room above and to the left returns the blank to
/// its cell and rotates the three other visited cells among themselves;
/// every other cell is untouched. One tour therefore does not restore the
/// configuration — three tours do.
pub proof fn lemma_move_cycle_rotates(s: Seq<usize>, p: int, h: int)
    requires
        2 <= h,
        h + 1 <= p < s.len(),
    ensures
        quarter_turn(s, p, h) == s.update(p - 1, s[p - 1 - h]).update(p - 1 - h, s[p - h]).update(
            p - h,
            s[p - 1],
        ),
{
    assert(quarter_turn(s, p, h) =~= s.update(p - 1, s[p - 1 - h]).update(
        p - 1 - h,
        s[p - h],
    ).update(p - h, s[p - 1]));
}

/// Law (cycle of moves, three tours): tracing the square cycle up, left,
/// down, right three times over restores the configuration exactly.
pub proof fn lemma_move_cycle_thrice(s: Seq<usize>, p: int, h: int)
    requires
        2 <= h,
        h + 1 <= p < s.len(),
    ensures
        quarter_turn(quarter_turn(quarter_turn(s, p, h), p, h), p, h) == s,
{
    assert(quarter_turn(quarter_turn(quarter_turn(s, p, h), p, h), p, h) =~= s);
}

} // verus!
