use crate::cell::{inc_spec, Cell};
use rand::Rng;
use vstd::prelude::*;

verus! {

/// `(x, y)` lies on a grid of `w` columns and `h` rows.
pub open spec fn in_grid(w: int, h: int, x: int, y: int) -> bool {
    0 <= x < w && 0 <= y < h
}

/// Row-major position of `(x, y)` in a grid of `w` columns.
pub open spec fn idx(w: int, x: int, y: int) -> int {
    y * w + x
}

/// One when `(x, y)` is on the grid and holds a mine, else zero.
pub open spec fn mine_at(cells: Seq<Cell>, w: int, h: int, x: int, y: int) -> nat {
    if in_grid(w, h, x, y) && cells[idx(w, x, y)] is Mine {
        1
    } else {
        0
    }
}

/// Number of mines among the up to eight grid neighbours of `(x, y)`.
pub open spec fn neighbor_mines(cells: Seq<Cell>, w: int, h: int, x: int, y: int) -> nat {
    mine_at(cells, w, h, x - 1, y - 1) + mine_at(cells, w, h, x, y - 1) + mine_at(
        cells,
        w,
        h,
        x + 1,
        y - 1,
    ) + mine_at(cells, w, h, x - 1, y) + mine_at(cells, w, h, x + 1, y) + mine_at(
        cells,
        w,
        h,
        x - 1,
        y + 1,
    ) + mine_at(cells, w, h, x, y + 1) + mine_at(cells, w, h, x + 1, y + 1)
}

/// One when `(x, y)` is on the grid, else zero.
pub open spec fn on_grid(w: int, h: int, x: int, y: int) -> nat {
    if in_grid(w, h, x, y) {
        1
    } else {
        0
    }
}

/// Number of grid neighbours of `(x, y)`: the cells that its count looks at.
pub open spec fn neighbor_total(w: int, h: int, x: int, y: int) -> nat {
    on_grid(w, h, x - 1, y - 1) + on_grid(w, h, x, y - 1) + on_grid(w, h, x + 1, y - 1) + on_grid(
        w,
        h,
        x - 1,
        y,
    ) + on_grid(w, h, x + 1, y) + on_grid(w, h, x - 1, y + 1) + on_grid(w, h, x, y + 1)
        + on_grid(w, h, x + 1, y + 1)
}

/// The cell at `(x, y)` is a mine or counts exactly the mines around it.
pub open spec fn cell_ok(cells: Seq<Cell>, w: int, h: int, x: int, y: int) -> bool {
    cells[idx(w, x, y)] is Mine || cells[idx(w, x, y)] == Cell::Count(
        neighbor_mines(cells, w, h, x, y) as u8,
    )
}

/// Every count on the grid agrees with the mines around it.
pub open spec fn consistent(cells: Seq<Cell>, w: int, h: int) -> bool {
    forall|x: int, y: int| in_grid(w, h, x, y) ==> #[trigger] cell_ok(cells, w, h, x, y)
}

/// Every cell is a mine or a count in `0..=8`.
pub open spec fn cells_valid(cells: Seq<Cell>) -> bool {
    forall|j: int| 0 <= j < cells.len() ==> (#[trigger] cells[j]).wf()
}

/// Number of mines in a sequence of cells.
pub open spec fn mine_total(cells: Seq<Cell>) -> nat
    decreases cells.len(),
{
    if cells.len() == 0 {
        0
    } else {
        mine_total(cells.drop_last()) + if cells.last() is Mine {
            1nat
        } else {
            0nat
        }
    }
}

/// `(a, b)` lies in the 3x3 block centred on `(x, y)`.
pub open spec fn near(x: int, y: int, a: int, b: int) -> bool {
    x - 1 <= a <= x + 1 && y - 1 <= b <= y + 1
}

/// `new` is `old` with `inc` applied to the grid cells of the block `[x0, x1] x [y0, y1]`.
spec fn bumped(
    old: Seq<Cell>,
    new: Seq<Cell>,
    w: int,
    h: int,
    x0: int,
    x1: int,
    y0: int,
    y1: int,
) -> bool {
    &&& new.len() == old.len()
    &&& forall|j: int| 0 <= j < old.len() ==> (#[trigger] new[j] is Mine <==> old[j] is Mine)
    &&& forall|a: int, b: int|
        in_grid(w, h, a, b) ==> #[trigger] new[idx(w, a, b)] == if x0 <= a <= x1 && y0 <= b <= y1 {
            inc_spec(old[idx(w, a, b)])
        } else {
            old[idx(w, a, b)]
        }
}

/// Every grid position has its index within `0..w*h`.
proof fn lemma_idx_bounds(w: int, h: int)
    ensures
        forall|x: int, y: int|
            in_grid(w, h, x, y) ==> 0 <= #[trigger] idx(w, x, y) < w * h,
{
    assert forall|x: int, y: int| in_grid(w, h, x, y) implies 0 <= #[trigger] idx(w, x, y) < w
        * h by {
        assert(0 <= y * w + x < w * h) by (nonlinear_arith)
            requires
                0 <= x < w,
                0 <= y < h,
        ;
    }
}

/// Distinct grid positions have distinct indices.
proof fn lemma_idx_inj(w: int)
    ensures
        forall|x1: int, y1: int, x2: int, y2: int|
            0 <= x1 < w && 0 <= x2 < w && #[trigger] idx(w, x1, y1) == #[trigger] idx(w, x2, y2)
                ==> x1 == x2 && y1 == y2,
{
    assert forall|x1: int, y1: int, x2: int, y2: int|
        0 <= x1 < w && 0 <= x2 < w && #[trigger] idx(w, x1, y1) == #[trigger] idx(
            w,
            x2,
            y2,
        ) implies x1 == x2 && y1 == y2 by {
        assert(y1 == y2) by (nonlinear_arith)
            requires
                0 <= x1 < w,
                0 <= x2 < w,
                y1 * w + x1 == y2 * w + x2,
        ;
    }
}

/// Grid of minesweeper cells, stored row by row, with a cursor.
#[derive(Clone, Debug)]
pub struct Board {
    width: usize,
    height: usize,
    cells: Vec<Cell>,
    cur_x: usize,
    cur_y: usize,
}

/// `n` cells, each a count of zero.
fn fresh_cells(n: usize) -> (r: Vec<Cell>)
    ensures
        r@.len() == n,
        forall|j: int| 0 <= j < n ==> #[trigger] r@[j] == Cell::Count(0),
{
    let mut v: Vec<Cell> = Vec::new();
    let mut i: usize = 0;
    while i < n
        invariant
            i <= n,
            v@.len() == i,
            forall|j: int| 0 <= j < i ==> #[trigger] v@[j] == Cell::Count(0),
        decreases n - i,
    {
        v.push(Cell::new(0));
        i = i + 1;
    }
    v
}

/// A grid of counts of zero holds no mine and agrees with itself.
proof fn lemma_fresh_consistent(cells: Seq<Cell>, w: int, h: int)
    requires
        cells.len() == w * h,
        forall|j: int| 0 <= j < cells.len() ==> #[trigger] cells[j] == Cell::Count(0),
    ensures
        consistent(cells, w, h),
        cells_valid(cells),
{
    lemma_idx_bounds(w, h);
    assert forall|x: int, y: int| in_grid(w, h, x, y) implies #[trigger] cell_ok(
        cells,
        w,
        h,
        x,
        y,
    ) by {
        assert(neighbor_mines(cells, w, h, x, y) == 0);
    }
}

impl Board {
    /// Number of columns.
    pub closed spec fn spec_width(&self) -> usize {
        self.width
    }

    /// Number of rows.
    pub closed spec fn spec_height(&self) -> usize {
        self.height
    }

    /// Returns the number of columns.
    #[verifier::when_used_as_spec(spec_width)]
    pub fn width(&self) -> (r: usize)
        ensures
            r == self.spec_width(),
    {
        self.width
    }

    /// Returns the number of rows.
    #[verifier::when_used_as_spec(spec_height)]
    pub fn height(&self) -> (r: usize)
        ensures
            r == self.spec_height(),
    {
        self.height
    }

    /// The cells, row by row.
    pub closed spec fn cells(&self) -> Seq<Cell> {
        self.cells@
    }

    /// The cursor position `(x, y)`.
    pub closed spec fn cursor_pos(&self) -> (usize, usize) {
        (self.cur_x, self.cur_y)
    }

    /// The cell at `(x, y)`.
    pub open spec fn cell_at(&self, x: int, y: int) -> Cell {
        self.cells()[idx(self.width() as int, x, y)]
    }

    /// Storage matches the size, every cell is valid, and every count agrees with its mines.
    pub open spec fn wf(&self) -> bool {
        &&& self.cells().len() == self.width() * self.height()
        &&& cells_valid(self.cells())
        &&& consistent(self.cells(), self.width() as int, self.height() as int)
    }

    /// Creates a board of the given size with every cell a count of zero and the cursor at `(0, 0)`.
    pub fn new(width: usize, height: usize) -> (r: Board)
        requires
            width * height <= usize::MAX,
        ensures
            r.wf(),
            r.width() == width,
            r.height() == height,
            r.cursor_pos() == (0usize, 0usize),
            r.cells().len() == width * height,
            forall|j: int| 0 <= j < r.cells().len() ==> #[trigger] r.cells()[j] == Cell::Count(0),
            mine_total(r.cells()) == 0,
    {
        let cells = fresh_cells(width * height);
        proof {
            lemma_fresh_consistent(cells@, width as int, height as int);
            lemma_mine_total_zero(cells@);
        }
        Board { width, height, cells, cur_x: 0, cur_y: 0 }
    }

    /// Returns the cell at `(x, y)`, or `None` when the position is off the grid.
    pub fn get(&self, x: usize, y: usize) -> (r: Option<&Cell>)
        requires
            self.wf(),
        ensures
            r.is_some() <==> (x < self.width() && y < self.height()),
            r.is_some() ==> *r.unwrap() == self.cell_at(x as int, y as int),
    {
        if x < self.width && y < self.height {
            proof {
                lemma_idx_bounds(self.width as int, self.height as int);
                assert(in_grid(self.width as int, self.height as int, x as int, y as int));
                assert(idx(self.width as int, x as int, y as int) < self.cells@.len());
            }
            let n = self.cells.len();
            assert((y as int) * (self.width as int) + (x as int) < n);
            Some(&self.cells[y * self.width + x])
        } else {
            None
        }
    }

    /// Returns the cursor position `(x, y)`.
    pub fn cursor(&self) -> (r: (usize, usize))
        ensures
            r == self.cursor_pos(),
    {
        (self.cur_x, self.cur_y)
    }

    /// Changes the size; every cell becomes a count of zero and the cursor stays where it was.
    pub fn resize(&mut self, width: usize, height: usize)
        requires
            width * height <= usize::MAX,
        ensures
            final(self).wf(),
            final(self).width() == width,
            final(self).height() == height,
            final(self).cursor_pos() == old(self).cursor_pos(),
            final(self).cells().len() == width * height,
            forall|j: int|
                0 <= j < final(self).cells().len() ==> #[trigger] final(self).cells()[j]
                    == Cell::Count(0),
            mine_total(final(self).cells()) == 0,
    {
        self.width = width;
        self.height = height;
        self.cells = fresh_cells(width * height);
        proof {
            lemma_fresh_consistent(self.cells@, width as int, height as int);
            lemma_mine_total_zero(self.cells@);
        }
    }

    /// Moves the cursor one row up, wrapping from the top row to the bottom one.
    pub fn cur_up(&mut self)
        requires
            old(self).height() > 0,
        ensures
            final(self).cursor_pos() == (
                old(self).cursor_pos().0,
                if old(self).cursor_pos().1 == 0 {
                    (old(self).height() - 1) as usize
                } else {
                    (old(self).cursor_pos().1 - 1) as usize
                },
            ),
            final(self).width() == old(self).width(),
            final(self).height() == old(self).height(),
            final(self).cells() == old(self).cells(),
    {
        self.cur_y = if self.cur_y == 0 {
            self.height - 1
        } else {
            self.cur_y - 1
        };
    }

    /// Moves the cursor one row down, wrapping from the bottom row to the top one.
    pub fn cur_down(&mut self)
        requires
            old(self).height() > 0,
        ensures
            final(self).cursor_pos() == (
                old(self).cursor_pos().0,
                if old(self).cursor_pos().1 + 1 >= old(self).height() {
                    0usize
                } else {
                    (old(self).cursor_pos().1 + 1) as usize
                },
            ),
            final(self).width() == old(self).width(),
            final(self).height() == old(self).height(),
            final(self).cells() == old(self).cells(),
    {
        self.cur_y = if self.cur_y >= self.height - 1 {
            0
        } else {
            self.cur_y + 1
        };
    }

    /// Moves the cursor one column left, wrapping from the first column to the last one.
    pub fn cur_left(&mut self)
        requires
            old(self).width() > 0,
        ensures
            final(self).cursor_pos() == (
                if old(self).cursor_pos().0 == 0 {
                    (old(self).width() - 1) as usize
                } else {
                    (old(self).cursor_pos().0 - 1) as usize
                },
                old(self).cursor_pos().1,
            ),
            final(self).width() == old(self).width(),
            final(self).height() == old(self).height(),
            final(self).cells() == old(self).cells(),
    {
        self.cur_x = if self.cur_x == 0 {
            self.width - 1
        } else {
            self.cur_x - 1
        };
    }

    /// Moves the cursor one column right, wrapping from the last column (by the width) to the first one.
    pub fn cur_right(&mut self)
        requires
            old(self).width() > 0,
        ensures
            final(self).cursor_pos() == (
                if old(self).cursor_pos().0 + 1 >= old(self).width() {
                    0usize
                } else {
                    (old(self).cursor_pos().0 + 1) as usize
                },
                old(self).cursor_pos().1,
            ),
            final(self).width() == old(self).width(),
            final(self).height() == old(self).height(),
            final(self).cells() == old(self).cells(),
    {
        self.cur_x = if self.cur_x >= self.width - 1 {
            0
        } else {
            self.cur_x + 1
        };
    }
}

impl Board {
    /// Adds one to the count at `(x, y)`.
    fn inc_cell(&mut self, x: usize, y: usize)
        requires
            old(self).cells().len() == old(self).width() * old(self).height(),
            cells_valid(old(self).cells()),
            x < old(self).width(),
            y < old(self).height(),
            old(self).cell_at(x as int, y as int).can_inc(),
        ensures
            final(self).width() == old(self).width(),
            final(self).height() == old(self).height(),
            final(self).cursor_pos() == old(self).cursor_pos(),
            cells_valid(final(self).cells()),
            bumped(
                old(self).cells(),
                final(self).cells(),
                old(self).width() as int,
                old(self).height() as int,
                x as int,
                x as int,
                y as int,
                y as int,
            ),
    {
        let ghost w = self.width as int;
        let ghost h = self.height as int;
        proof {
            lemma_idx_bounds(w, h);
            lemma_idx_inj(w);
            assert(in_grid(w, h, x as int, y as int));
        }
        let n = self.cells.len();
        assert((y as int) * (self.width as int) + (x as int) < n);
        let i = y * self.width + x;
        let mut c = self.cells[i];
        c.inc();
        self.cells.set(i, c);
        proof {
            assert forall|a: int, b: int| in_grid(w, h, a, b) implies #[trigger] self.cells@[idx(
                w,
                a,
                b,
            )] == if x <= a <= x && y <= b <= y {
                inc_spec(old(self).cells@[idx(w, a, b)])
            } else {
                old(self).cells@[idx(w, a, b)]
            } by {
                assert(idx(w, a, b) == idx(w, x as int, y as int) ==> a == x && b == y);
            }
        }
    }

    /// Adds one to the counts at `(x - 1, y)`, `(x, y)` and `(x + 1, y)`, where on the grid.
    fn inc_hor_neighbors(&mut self, x: usize, y: usize)
        requires
            old(self).cells().len() == old(self).width() * old(self).height(),
            cells_valid(old(self).cells()),
            x < old(self).width(),
            y < old(self).height(),
            forall|a: int|
                x - 1 <= a <= x + 1 && 0 <= a < old(self).width() ==> #[trigger] old(
                    self,
                ).cell_at(a, y as int).can_inc(),
        ensures
            final(self).width() == old(self).width(),
            final(self).height() == old(self).height(),
            final(self).cursor_pos() == old(self).cursor_pos(),
            cells_valid(final(self).cells()),
            bumped(
                old(self).cells(),
                final(self).cells(),
                old(self).width() as int,
                old(self).height() as int,
                x - 1,
                x + 1,
                y as int,
                y as int,
            ),
    {
        let ghost w = self.width as int;
        let ghost h = self.height as int;
        proof {
            lemma_idx_bounds(w, h);
            lemma_idx_inj(w);
            assert(old(self).cell_at(x as int, y as int).can_inc());
        }
        if x > 0 {
            assert(old(self).cell_at(x - 1, y as int).can_inc());
            self.inc_cell(x - 1, y);
        }
        assert(self.cells@[idx(w, x as int, y as int)] == old(self).cells@[idx(w, x as int, y as int)]);
        self.inc_cell(x, y);
        if x + 1 < self.width {
            assert(old(self).cell_at(x + 1, y as int).can_inc());
            assert(self.cells@[idx(w, x + 1, y as int)] == old(self).cells@[idx(w, x + 1, y as int)]);
            self.inc_cell(x + 1, y);
        }
    }

    /// Adds one to every count in the 3x3 block centred on the cell at index `pos`.
    fn inc_neighbors(&mut self, pos: usize)
        requires
            old(self).cells().len() == old(self).width() * old(self).height(),
            cells_valid(old(self).cells()),
            pos < old(self).cells().len(),
            forall|a: int, b: int|
                in_grid(old(self).width() as int, old(self).height() as int, a, b) && near(
                    pos as int % old(self).width() as int,
                    pos as int / old(self).width() as int,
                    a,
                    b,
                ) ==> #[trigger] old(self).cell_at(a, b).can_inc(),
        ensures
            final(self).width() == old(self).width(),
            final(self).height() == old(self).height(),
            final(self).cursor_pos() == old(self).cursor_pos(),
            cells_valid(final(self).cells()),
            bumped(
                old(self).cells(),
                final(self).cells(),
                old(self).width() as int,
                old(self).height() as int,
                pos as int % old(self).width() as int - 1,
                pos as int % old(self).width() as int + 1,
                pos as int / old(self).width() as int - 1,
                pos as int / old(self).width() as int + 1,
            ),
    {
        let x = pos % self.width;
        let y = pos / self.width;
        let ghost w = self.width as int;
        let ghost h = self.height as int;
        proof {
            lemma_pos_coords(pos as int, w, h);
            lemma_idx_bounds(w, h);
            lemma_idx_inj(w);
        }
        if y > 0 {
            assert forall|a: int| x - 1 <= a <= x + 1 && 0 <= a < w implies #[trigger] self.cell_at(
                a,
                y - 1,
            ).can_inc() by {
                assert(in_grid(w, h, a, y - 1));
            }
            self.inc_hor_neighbors(x, y - 1);
        }
        assert forall|a: int| x - 1 <= a <= x + 1 && 0 <= a < w implies #[trigger] self.cell_at(
            a,
            y as int,
        ).can_inc() by {
            assert(in_grid(w, h, a, y as int));
            assert(old(self).cell_at(a, y as int).can_inc());
        }
        self.inc_hor_neighbors(x, y);
        if y + 1 < self.height {
            assert forall|a: int| x - 1 <= a <= x + 1 && 0 <= a < w implies #[trigger] self.cell_at(
                a,
                y + 1,
            ).can_inc() by {
                assert(in_grid(w, h, a, y + 1));
                assert(old(self).cell_at(a, y + 1).can_inc());
            }
            self.inc_hor_neighbors(x, y + 1);
        }
    }
}

impl Board {
    /// Turns the cell at index `pos` into a mine and adds one to the count of each cell around it.
    pub fn place_mine(&mut self, pos: usize)
        requires
            old(self).wf(),
            pos < old(self).cells().len(),
            !(old(self).cells()[pos as int] is Mine),
        ensures
            final(self).wf(),
            final(self).width() == old(self).width(),
            final(self).height() == old(self).height(),
            final(self).cursor_pos() == old(self).cursor_pos(),
            final(self).cells().len() == old(self).cells().len(),
            forall|j: int|
                0 <= j < old(self).cells().len() ==> (#[trigger] final(self).cells()[j] is Mine
                    <==> (old(self).cells()[j] is Mine || j == pos)),
            mine_total(final(self).cells()) == mine_total(old(self).cells()) + 1,
    {
        let ghost w = self.width as int;
        let ghost h = self.height as int;
        let ghost s0 = self.cells@;
        let ghost x = pos as int % w;
        let ghost y = pos as int / w;
        proof {
            lemma_pos_coords(pos as int, w, h);
            lemma_idx_bounds(w, h);
            lemma_idx_inj(w);
        }
        self.cells.set(pos, Cell::new(crate::cell::MINE));
        let ghost s1 = self.cells@;
        proof {
            assert(s1 == s0.update(pos as int, Cell::Mine));
            assert forall|a: int, b: int| in_grid(w, h, a, b) && near(x, y, a, b) implies #[trigger] self.cell_at(
                a,
                b,
            ).can_inc() by {
                if a != x || b != y {
                    assert(idx(w, a, b) != idx(w, x, y));
                    assert(cell_ok(s0, w, h, a, b));
                    lemma_nm_flip(s0, w, h, x, y, a, b);
                }
            }
        }
        self.inc_neighbors(pos);
        proof {
            let s2 = self.cells@;
            assert forall|a: int, b: int| in_grid(w, h, a, b) implies #[trigger] cell_ok(
                s2,
                w,
                h,
                a,
                b,
            ) by {
                lemma_nm_same(s1, s2, w, h, a, b);
                lemma_nm_flip(s0, w, h, x, y, a, b);
                assert(cell_ok(s0, w, h, a, b));
                if a != x || b != y {
                    assert(idx(w, a, b) != idx(w, x, y));
                }
            }
            lemma_mine_total_set(s0, pos as int);
            lemma_mine_total_same(s1, s2);
        }
    }
}

/// Relies on `rand::thread_rng` and `rand::Rng::gen_range`: a value drawn from `0..bound`
/// (`gen_range` panics on an empty range, hence `bound > 0`).
#[verifier::external_body]
fn random_below(bound: usize) -> (r: usize)
    requires
        bound > 0,
    ensures
        r < bound,
{
    rand::thread_rng().gen_range(0..bound)
}

impl Board {
    /// Places `mines` new mines on cells that hold none, each drawn uniformly from the
    /// remaining free cells, and updates the counts around each of them.
    ///
    /// Mines already on the board stay; the board is not cleared first.
    pub fn generate(&mut self, mines: usize)
        requires
            old(self).wf(),
            mine_total(old(self).cells()) + mines <= old(self).cells().len(),
        ensures
            final(self).wf(),
            final(self).width() == old(self).width(),
            final(self).height() == old(self).height(),
            final(self).cursor_pos() == old(self).cursor_pos(),
            final(self).cells().len() == old(self).cells().len(),
            forall|j: int|
                0 <= j < old(self).cells().len() && old(self).cells()[j] is Mine
                    ==> #[trigger] final(self).cells()[j] is Mine,
            mine_total(final(self).cells()) == mine_total(old(self).cells()) + mines,
    {
        let n = self.cells.len();
        let mut free: Vec<usize> = Vec::new();
        let mut i: usize = 0;
        while i < n
            invariant
                i <= n,
                n == self.cells@.len(),
                self == old(self),
                forall|k: int|
                    0 <= k < free@.len() ==> #[trigger] free@[k] < i && !(
                    self.cells@[free@[k] as int] is Mine),
                forall|k1: int, k2: int|
                    0 <= k1 < k2 < free@.len() ==> #[trigger] free@[k1] < #[trigger] free@[k2],
                free@.len() + mine_total(self.cells@.subrange(0, i as int)) == i,
            decreases n - i,
        {
            assert(self.cells@.subrange(0, i + 1).drop_last() =~= self.cells@.subrange(
                0,
                i as int,
            ));
            if !self.cells[i].is_mine() {
                free.push(i);
            }
            i = i + 1;
        }
        assert(self.cells@.subrange(0, n as int) =~= self.cells@);
        let mut placed: usize = 0;
        while placed < mines
            invariant
                self.wf(),
                self.width() == old(self).width(),
                self.height() == old(self).height(),
                self.cursor_pos() == old(self).cursor_pos(),
                self.cells@.len() == n,
                n == old(self).cells().len(),
                forall|j: int|
                    0 <= j < n && old(self).cells()[j] is Mine ==> #[trigger] self.cells@[j] is Mine,
                mine_total(self.cells@) == mine_total(old(self).cells()) + placed,
                placed <= mines,
                free@.len() + placed + mine_total(old(self).cells()) == n,
                mine_total(old(self).cells()) + mines <= n,
                forall|k: int|
                    0 <= k < free@.len() ==> #[trigger] free@[k] < n && !(
                    self.cells@[free@[k] as int] is Mine),
                forall|k1: int, k2: int|
                    0 <= k1 < free@.len() && 0 <= k2 < free@.len() && k1 != k2
                        ==> #[trigger] free@[k1] != #[trigger] free@[k2],
            decreases mines - placed,
        {
            let r = random_below(free.len());
            let pos = free.swap_remove(r);
            self.place_mine(pos);
            proof {
                assert forall|k: int| 0 <= k < free@.len() implies #[trigger] free@[k] < n && !(
                self.cells@[free@[k] as int] is Mine) by {
                    assert(free@[k] != pos);
                }
            }
            placed = placed + 1;
        }
    }
}

/// Setting a non-mine cell of the grid to a mine adds one to the mine count of each of its neighbours.
proof fn lemma_nm_flip(s0: Seq<Cell>, w: int, h: int, x: int, y: int, a: int, b: int)
    requires
        s0.len() == w * h,
        in_grid(w, h, x, y),
        in_grid(w, h, a, b),
        !(s0[idx(w, x, y)] is Mine),
    ensures
        neighbor_mines(s0.update(idx(w, x, y), Cell::Mine), w, h, a, b) == neighbor_mines(
            s0,
            w,
            h,
            a,
            b,
        ) + if near(x, y, a, b) && (a != x || b != y) {
            1nat
        } else {
            0nat
        },
        neighbor_mines(s0.update(idx(w, x, y), Cell::Mine), w, h, a, b) <= 8,
{
    lemma_idx_bounds(w, h);
    lemma_idx_inj(w);
}

/// Two grids with mines in the same places have the same neighbour mine counts.
proof fn lemma_nm_same(s: Seq<Cell>, t: Seq<Cell>, w: int, h: int, a: int, b: int)
    requires
        s.len() == w * h,
        t.len() == s.len(),
        forall|j: int| 0 <= j < s.len() ==> (#[trigger] t[j] is Mine <==> s[j] is Mine),
    ensures
        neighbor_mines(t, w, h, a, b) == neighbor_mines(s, w, h, a, b),
{
    lemma_idx_bounds(w, h);
}

/// Turning a non-mine cell into a mine adds one to the mine total.
proof fn lemma_mine_total_set(s: Seq<Cell>, i: int)
    requires
        0 <= i < s.len(),
        !(s[i] is Mine),
    ensures
        mine_total(s.update(i, Cell::Mine)) == mine_total(s) + 1,
    decreases s.len(),
{
    let t = s.update(i, Cell::Mine);
    if i == s.len() - 1 {
        assert(t.drop_last() =~= s.drop_last());
    } else {
        lemma_mine_total_set(s.drop_last(), i);
        assert(t.drop_last() =~= s.drop_last().update(i, Cell::Mine));
    }
}

/// Sequences with mines in the same places have the same mine total.
proof fn lemma_mine_total_same(s: Seq<Cell>, t: Seq<Cell>)
    requires
        t.len() == s.len(),
        forall|j: int| 0 <= j < s.len() ==> (#[trigger] t[j] is Mine <==> s[j] is Mine),
    ensures
        mine_total(t) == mine_total(s),
    decreases s.len(),
{
    if s.len() > 0 {
        lemma_mine_total_same(s.drop_last(), t.drop_last());
    }
}

/// On a well-formed board every cell that is not a mine holds exactly the number of mines
/// among its grid neighbours, and that number is at most eight.
pub proof fn lemma_counts_match(b: &Board, x: int, y: int)
    requires
        b.wf(),
        in_grid(b.width() as int, b.height() as int, x, y),
        !(b.cell_at(x, y) is Mine),
    ensures
        b.cell_at(x, y) == Cell::Count(
            neighbor_mines(b.cells(), b.width() as int, b.height() as int, x, y) as u8,
        ),
        neighbor_mines(b.cells(), b.width() as int, b.height() as int, x, y) <= 8,
{
    assert(cell_ok(b.cells(), b.width() as int, b.height() as int, x, y));
}

/// The count of a cell only looks at its grid neighbours: it never exceeds their number.
pub proof fn lemma_mines_within_neighbors(cells: Seq<Cell>, w: int, h: int, x: int, y: int)
    ensures
        neighbor_mines(cells, w, h, x, y) <= neighbor_total(w, h, x, y),
{
}

/// On a grid of at least two columns and two rows the corner `(0, 0)` has three neighbours.
pub proof fn lemma_corner_neighbors(w: int, h: int)
    requires
        w >= 2,
        h >= 2,
    ensures
        neighbor_total(w, h, 0, 0) == 3,
{
}

/// A cell away from every edge has all eight neighbours on the grid.
pub proof fn lemma_interior_neighbors(w: int, h: int, x: int, y: int)
    requires
        1 <= x < w - 1,
        1 <= y < h - 1,
    ensures
        neighbor_total(w, h, x, y) == 8,
{
}

/// An index below `w * h` splits into a column below `w` and a row below `h`.
proof fn lemma_pos_coords(pos: int, w: int, h: int)
    requires
        0 <= pos < w * h,
        0 <= w,
        0 <= h,
    ensures
        w > 0,
        0 <= pos % w < w,
        0 <= pos / w < h,
        pos == idx(w, pos % w, pos / w),
{
    if w == 0 {
        assert(w * h == 0);
    }
    vstd::arithmetic::div_mod::lemma_fundamental_div_mod(pos, w);
    vstd::arithmetic::div_mod::lemma_div_pos_is_pos(pos, w);
    assert(pos / w < h) by (nonlinear_arith)
        requires
            pos == w * (pos / w) + pos % w,
            0 <= pos % w,
            pos < w * h,
            w > 0,
    ;
    assert(w * (pos / w) == (pos / w) * w) by (nonlinear_arith);
}

/// A sequence of counts of zero holds no mine.
proof fn lemma_mine_total_zero(cells: Seq<Cell>)
    requires
        forall|j: int| 0 <= j < cells.len() ==> #[trigger] cells[j] == Cell::Count(0),
    ensures
        mine_total(cells) == 0,
    decreases cells.len(),
{
    if cells.len() > 0 {
        lemma_mine_total_zero(cells.drop_last());
    }
}

} // verus!
