//! The board: a grid of `width * height` cells holding each label of
//! `1..=width*height` exactly once; the largest label marks the blank cell.

use vstd::arithmetic::div_mod::lemma_fundamental_div_mod;
use vstd::arithmetic::div_mod::lemma_fundamental_div_mod_converse;
use vstd::prelude::*;

verus! {

/// A flat index decomposes into a column below `w` and a row below `h`
/// whenever it lies below `w * h`.
pub proof fn lemma_flat_index_decompose(w: int, h: int, i: int)
    requires
        0 < w,
        0 < h,
        0 <= i < w * h,
    ensures
        0 <= i / h < w,
        0 <= i % h < h,
        i == (i / h) * h + i % h,
{
    lemma_fundamental_div_mod(i, h);
    assert(0 <= i % h < h);
    assert(i == h * (i / h) + i % h);
    assert((i / h) * h == h * (i / h)) by (nonlinear_arith) {
    }
    assert(i / h >= 0 && i / h < w) by (nonlinear_arith)
        requires
            0 < w,
            0 < h,
            0 <= i < w * h,
            i == h * (i / h) + i % h,
            0 <= i % h < h,
    {
    }
}

/// A column below `w` and a row below `h` make a flat index below `w * h`,
/// and the decomposition of that index gives them back.
pub proof fn lemma_flat_index_compose(w: int, h: int, x: int, y: int)
    requires
        0 < w,
        0 < h,
        0 <= x < w,
        0 <= y < h,
    ensures
        0 <= x * h + y < w * h,
        (x * h + y) / h == x,
        (x * h + y) % h == y,
{
    assert(0 <= x * h + y < w * h) by (nonlinear_arith)
        requires
            0 < w,
            0 < h,
            0 <= x < w,
            0 <= y < h,
    {
    }
    lemma_fundamental_div_mod_converse(x * h + y, h, x, y);
}

/// The two failure kinds of the engine: board dimensions below the supported
/// minimum (or too large for the machine), and an internal invariant
/// violation (the shuffle loop exceeding its safety cap).
#[derive(Clone, Copy, Debug, PartialEq, Eq, Structural)]
pub enum PuzzleError {
    ConfigurationError,
    InternalInvariantViolation,
}

/// Exchanging the contents of positions `i` and `j` of a sequence.
pub open spec fn swap_flat(s: Seq<usize>, i: int, j: int) -> Seq<usize> {
    s.update(i, s[j]).update(j, s[i])
}

/// The puzzle board. The grid is stored flattened column by column: the
/// cell at column `x`, row `y` sits at index `x * height + y`, the order
/// in which every scan here walks the grid.
#[derive(Clone, Debug, PartialEq, Eq)]
pub struct SlidingPuzzle {
    pub field: Vec<usize>,
    pub width: usize,
    pub height: usize,
}

impl SlidingPuzzle {
    /// The flattened contents of the grid, column by column.
    pub open spec fn flat(self) -> Seq<usize> {
        self.field@
    }

    /// The number of cells, which is also the blank's label.
    pub open spec fn area(self) -> int {
        self.width * self.height
    }

    /// The flat index of the cell at column `x`, row `y`.
    pub open spec fn idx(self, x: int, y: int) -> int {
        x * self.height + y
    }

    /// The label of the cell at column `x`, row `y`.
    pub open spec fn cell(self, x: int, y: int) -> usize {
        self.field@[self.idx(x, y)]
    }

    /// The dimensions are large enough to make a playable puzzle and small
    /// enough for the machine.
    pub open spec fn dims_ok(self) -> bool {
        &&& 2 <= self.width
        &&& 2 <= self.height
        &&& self.width * self.height <= usize::MAX
    }

    /// The dimensions are playable and the grid has exactly one cell for
    /// each of them.
    pub open spec fn shape(self) -> bool {
        &&& self.dims_ok()
        &&& self.field@.len() == self.width * self.height
    }

    /// Well-formed boards hold each label of `1..=width*height` exactly
    /// once; in particular the blank label `width*height` occurs.
    pub open spec fn wf(self) -> bool {
        &&& self.shape()
        &&& forall|i: int|
            0 <= i < self.field@.len() ==> 1 <= #[trigger] self.field@[i] <= self.field@.len()
        &&& self.field@.no_duplicates()
        &&& exists|i: int| 0 <= i < self.field@.len() && self.field@[i] == self.area()
    }

    /// The label the sorted configuration has at flat index `i`:
    /// labels read ascending row by row, so column `i / height` and row
    /// `i % height` hold `(i / height) + (i % height) * width + 1`.
    pub open spec fn sorted_cell(width: int, height: int, i: int) -> int {
        (i / height) + (i % height) * width + 1
    }

    /// The board is in the canonical sorted configuration.
    pub open spec fn is_sorted_spec(self) -> bool {
        forall|i: int|
            0 <= i < self.field@.len() ==> #[trigger] self.field@[i] == Self::sorted_cell(
                self.width as int,
                self.height as int,
                i,
            )
    }

    /// The flat index of the blank cell.
    pub open spec fn blank_index(self) -> int {
        choose|i: int| 0 <= i < self.field@.len() && self.field@[i] == self.area()
    }

    /// On a well-formed board the blank sits at exactly one index, so the
    /// chosen `blank_index` is the one where the blank is found.
    pub proof fn lemma_blank_index_unique(self, i: int)
        requires
            self.wf(),
            0 <= i < self.field@.len(),
            self.field@[i] == self.area(),
        ensures
            self.blank_index() == i,
    {
        let j = self.blank_index();
        assert(0 <= j < self.field@.len() && self.field@[j] == self.area());
    }

    /// Every label of the sorted configuration lies in `1..=width*height`.
    pub proof fn lemma_sorted_cell_bounds(width: int, height: int, i: int)
        requires
            2 <= width,
            2 <= height,
            0 <= i < width * height,
        ensures
            1 <= Self::sorted_cell(width, height, i) <= width * height,
    {
        lemma_flat_index_decompose(width, height, i);
        let x = i / height;
        let y = i % height;
        assert(x + y * width + 1 <= width * height) by (nonlinear_arith)
            requires
                0 <= x < width,
                0 <= y < height,
        {
        }
    }

    /// Distinct cells of the sorted configuration hold distinct labels.
    pub proof fn lemma_sorted_cell_injective(width: int, height: int, i: int, j: int)
        requires
            2 <= width,
            2 <= height,
            0 <= i < width * height,
            0 <= j < width * height,
            i != j,
        ensures
            Self::sorted_cell(width, height, i) != Self::sorted_cell(width, height, j),
    {
        lemma_flat_index_decompose(width, height, i);
        lemma_flat_index_decompose(width, height, j);
        let xi = i / height;
        let yi = i % height;
        let xj = j / height;
        let yj = j % height;
        if xi + yi * width == xj + yj * width {
            lemma_fundamental_div_mod_converse(xi + yi * width, width, yi, xi);
            lemma_fundamental_div_mod_converse(xj + yj * width, width, yj, xj);
            assert(xi == xj && yi == yj);
            assert(i == j);
        }
    }

    /// The last flat cell of the sorted configuration holds the blank label.
    pub proof fn lemma_sorted_cell_last(width: int, height: int)
        requires
            2 <= width,
            2 <= height,
        ensures
            Self::sorted_cell(width, height, width * height - 1) == width * height,
    {
        lemma_flat_index_compose(width, height, width - 1, height - 1);
        assert((width - 1) * height + (height - 1) == width * height - 1) by (nonlinear_arith) {
        }
        assert((width - 1) + (height - 1) * width + 1 == width * height) by (nonlinear_arith) {
        }
    }

    /// The sorted configuration, as a fresh flattened grid.
    pub fn give_sorted(&self) -> (r: Vec<usize>)
        requires
            self.dims_ok(),
        ensures
            r@.len() == self.area(),
            forall|i: int|
                0 <= i < r@.len() ==> #[trigger] r@[i] == Self::sorted_cell(
                    self.width as int,
                    self.height as int,
                    i,
                ),
    {
        let n = self.size();
        let mut field: Vec<usize> = Vec::new();
        let mut i: usize = 0;
        while i < n
            invariant
                self.dims_ok(),
                n == self.area(),
                i <= n,
                field@.len() == i,
                forall|j: int|
                    0 <= j < i ==> #[trigger] field@[j] == Self::sorted_cell(
                        self.width as int,
                        self.height as int,
                        j,
                    ),
            decreases n - i,
        {
            proof {
                lemma_flat_index_decompose(self.width as int, self.height as int, i as int);
                Self::lemma_sorted_cell_bounds(self.width as int, self.height as int, i as int);
            }
            let x = i / self.height;
            let y = i % self.height;
            field.push(x + y * self.width + 1);
            i = i + 1;
        }
        field
    }

    /// A fresh board of the asked dimensions, in the sorted configuration.
    /// Dimensions below two in either axis, or too large for the machine,
    /// are rejected before any board exists.
    pub fn new(width: usize, height: usize) -> (r: Result<SlidingPuzzle, PuzzleError>)
        ensures
            r is Ok <==> (2 <= width && 2 <= height && width * height <= usize::MAX),
            r is Ok ==> {
                let b = r->Ok_0;
                &&& b.wf()
                &&& b.width == width
                &&& b.height == height
                &&& b.is_sorted_spec()
            },
            r is Err ==> r->Err_0 == PuzzleError::ConfigurationError,
    {
        if width < 2 || height < 2 {
            return Err(PuzzleError::ConfigurationError);
        }
        if width.checked_mul(height).is_none() {
            return Err(PuzzleError::ConfigurationError);
        }
        let mut game = SlidingPuzzle { field: Vec::new(), width, height };
        let sorted = game.give_sorted();
        game.field = sorted;
        proof {
            let w = width as int;
            let h = height as int;
            assert(4 <= w * h) by (nonlinear_arith)
                requires
                    2 <= w,
                    2 <= h,
            {
            }
            assert forall|i: int| 0 <= i < game.field@.len() implies 1 <= #[trigger] game.field@[i]
                <= game.field@.len() by {
                Self::lemma_sorted_cell_bounds(w, h, i);
            }
            assert forall|i: int, j: int|
                0 <= i < game.field@.len() && 0 <= j < game.field@.len() && i != j implies game.field@[i]
                != game.field@[j] by {
                Self::lemma_sorted_cell_injective(w, h, i, j);
            }
            Self::lemma_sorted_cell_last(w, h);
            assert(game.field@[w * h - 1] == game.area());
        }
        Ok(game)
    }

    /// Whether the board is in the canonical sorted configuration, the sole
    /// winning condition of a play session.
    pub fn is_sorted(&self) -> (r: bool)
        requires
            self.shape(),
        ensures
            r == self.is_sorted_spec(),
    {
        let sorted = self.give_sorted();
        let n = self.size();
        let mut i: usize = 0;
        while i < n
            invariant
                self.shape(),
                n == self.area(),
                i <= n,
                sorted@.len() == n,
                forall|j: int|
                    0 <= j < sorted@.len() ==> #[trigger] sorted@[j] == Self::sorted_cell(
                        self.width as int,
                        self.height as int,
                        j,
                    ),
                forall|j: int|
                    0 <= j < i ==> #[trigger] self.field@[j] == Self::sorted_cell(
                        self.width as int,
                        self.height as int,
                        j,
                    ),
            decreases n - i,
        {
            if self.field[i] != sorted[i] {
                return false;
            }
            i = i + 1;
        }
        true
    }

    /// The number of cells; also the blank's label.
    pub fn size(&self) -> (n: usize)
        requires
            self.width * self.height <= usize::MAX,
        ensures
            n == self.area(),
    {
        self.width * self.height
    }

    /// The label that marks the blank cell.
    pub fn blank_value(&self) -> (n: usize)
        requires
            self.width * self.height <= usize::MAX,
        ensures
            n == self.area(),
    {
        self.size()
    }

    /// Exchanges the contents of two cells, unconditionally: callers are
    /// responsible for picking the cells that keep the game meaningful.
    pub fn swap(&mut self, x1: usize, y1: usize, x2: usize, y2: usize)
        requires
            old(self).shape(),
            x1 < old(self).width,
            y1 < old(self).height,
            x2 < old(self).width,
            y2 < old(self).height,
        ensures
            final(self).width == old(self).width,
            final(self).height == old(self).height,
            final(self).flat() == swap_flat(
                old(self).flat(),
                old(self).idx(x1 as int, y1 as int),
                old(self).idx(x2 as int, y2 as int),
            ),
            old(self).wf() ==> final(self).wf(),
    {
        proof {
            lemma_flat_index_compose(
                self.width as int,
                self.height as int,
                x1 as int,
                y1 as int,
            );
            lemma_flat_index_compose(
                self.width as int,
                self.height as int,
                x2 as int,
                y2 as int,
            );
        }
        let i1 = x1 * self.height + y1;
        let i2 = x2 * self.height + y2;
        let a = self.field[i1];
        let b = self.field[i2];
        self.field[i1] = b;
        self.field[i2] = a;
        proof {
            if old(self).wf() {
                let s0 = old(self).flat();
                let s1 = self.flat();
                let p = i1 as int;
                let q = i2 as int;
                assert forall|i: int, j: int|
                    0 <= i < s1.len() && 0 <= j < s1.len() && i != j implies s1[i] != s1[j] by {
                    assert(s1[i] == if i == q {
                        s0[p]
                    } else if i == p {
                        s0[q]
                    } else {
                        s0[i]
                    });
                    assert(s1[j] == if j == q {
                        s0[p]
                    } else if j == p {
                        s0[q]
                    } else {
                        s0[j]
                    });
                }
                let k = choose|k: int| 0 <= k < s0.len() && s0[k] == old(self).area();
                if k == p {
                    assert(s1[q] == self.area());
                } else if k == q {
                    assert(s1[p] == self.area());
                } else {
                    assert(s1[k] == self.area());
                }
            }
        }
    }

    /// The coordinates of the blank cell. Well-formedness guarantees the
    /// scan finds it; reaching the end of the grid would be an invariant
    /// violation, not a normal outcome.
    pub fn index_blank(&self) -> (r: (usize, usize))
        requires
            self.wf(),
        ensures
            r.0 < self.width,
            r.1 < self.height,
            self.cell(r.0 as int, r.1 as int) == self.area(),
            self.idx(r.0 as int, r.1 as int) == self.blank_index(),
    {
        let n = self.size();
        let mut i: usize = 0;
        while i < n
            invariant
                self.wf(),
                n == self.area(),
                i <= n,
                forall|j: int| 0 <= j < i ==> #[trigger] self.field@[j] != self.area(),
            decreases n - i,
        {
            if self.field[i] == n {
                proof {
                    lemma_flat_index_decompose(
                        self.width as int,
                        self.height as int,
                        i as int,
                    );
                    self.lemma_blank_index_unique(i as int);
                }
                return (i / self.height, i % self.height);
            }
            i = i + 1;
        }
        proof {
            let k = choose|k: int| 0 <= k < self.field@.len() && self.field@[k] == self.area();
            assert(false);
        }
        (0, 0)
    }

    /// The Manhattan distance from the cell at `(x, y)` to the position its
    /// current label occupies in the sorted configuration.
    pub open spec fn distance_spec(self, x: int, y: int) -> nat {
        let t = self.cell(x, y) - 1;
        vstd::math::abs(t % (self.width as int) - x) + vstd::math::abs(
            t / (self.width as int) - y,
        )
    }

    /// How far the label at `(x, y)` is from home, as a Manhattan distance.
    pub fn get_distance(&self, x: usize, y: usize) -> (d: usize)
        requires
            self.wf(),
            x < self.width,
            y < self.height,
        ensures
            d == self.distance_spec(x as int, y as int),
    {
        let w = self.width;
        let h = self.height;
        proof {
            lemma_flat_index_compose(w as int, h as int, x as int, y as int);
        }
        let i = x * h + y;
        let tile_index = self.field[i] - 1;
        proof {
            assert(w as int * (h as int) == h as int * (w as int)) by (nonlinear_arith) {
            }
            lemma_flat_index_decompose(h as int, w as int, tile_index as int);
        }
        let dest_x = tile_index % w;
        let dest_y = tile_index / w;
        let dx = if dest_x >= x {
            dest_x - x
        } else {
            x - dest_x
        };
        let dy = if dest_y >= y {
            dest_y - y
        } else {
            y - dest_y
        };
        proof {
            assert(w as int + h as int <= w as int * (h as int)) by (nonlinear_arith)
                requires
                    2 <= w as int,
                    2 <= h as int,
            {
            }
        }
        dx + dy
    }

    /// The grid as the renderer consumes it: for each cell its label, and
    /// whether that cell is the blank one.
    pub fn render_snapshot(&self) -> (r: Vec<Vec<(usize, bool)>>)
        requires
            self.wf(),
        ensures
            r@.len() == self.width,
            forall|x: int| 0 <= x < self.width ==> (#[trigger] r@[x])@.len() == self.height,
            forall|x: int, y: int|
                0 <= x < self.width && 0 <= y < self.height ==> #[trigger] r@[x]@[y] == (
                    self.cell(x, y),
                    self.cell(x, y) == self.area(),
                ),
    {
        let n = self.size();
        let mut grid: Vec<Vec<(usize, bool)>> = Vec::new();
        let mut x: usize = 0;
        while x < self.width
            invariant
                self.wf(),
                n == self.area(),
                x <= self.width,
                grid@.len() == x,
                forall|u: int| 0 <= u < x ==> (#[trigger] grid@[u])@.len() == self.height,
                forall|u: int, v: int|
                    0 <= u < x && 0 <= v < self.height ==> #[trigger] grid@[u]@[v] == (
                        self.cell(u, v),
                        self.cell(u, v) == self.area(),
                    ),
            decreases self.width - x,
        {
            let mut col: Vec<(usize, bool)> = Vec::new();
            let mut y: usize = 0;
            while y < self.height
                invariant
                    self.wf(),
                    n == self.area(),
                    x < self.width,
                    y <= self.height,
                    col@.len() == y,
                    forall|v: int|
                        0 <= v < y ==> #[trigger] col@[v] == (
                            self.cell(x as int, v),
                            self.cell(x as int, v) == self.area(),
                        ),
                decreases self.height - y,
            {
                proof {
                    lemma_flat_index_compose(
                        self.width as int,
                        self.height as int,
                        x as int,
                        y as int,
                    );
                }
                let value = self.field[x * self.height + y];
                col.push((value, value == n));
                y = y + 1;
            }
            grid.push(col);
            x = x + 1;
        }
        grid
    }
}

/// Law: exchanging two cells and then exchanging them again restores the
/// prior configuration exactly; the swap primitive is an involution.
pub proof fn lemma_swap_involution(s: Seq<usize>, i: int, j: int)
    requires
        0 <= i < s.len(),
        0 <= j < s.len(),
    ensures
        swap_flat(swap_flat(s, i, j), i, j) == s,
{
    assert(swap_flat(swap_flat(s, i, j), i, j) =~= s);
}

} // verus!
