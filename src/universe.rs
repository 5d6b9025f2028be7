use vstd::prelude::*;
use vstd::arithmetic::div_mod::{lemma_fundamental_div_mod, lemma_fundamental_div_mod_converse};
use crate::cell::{
    Cell, cell_values, evolved_value, rounded_average, values_of, lemma_cells_determined_by_values,
    lemma_values_of_push,
};

verus! {

/// Why a grid could not be built from the cells given.
#[derive(Clone, Copy, Debug, PartialEq, Eq, Structural)]
pub enum UniverseError {
    /// The number of cells does not fit the grid's shape.
    InvalidDimensions,
}

/// The value at column `col` and row `row` of a row-major grid of width `w`.
pub open spec fn value_at(g: Seq<u8>, w: int, col: int, row: int) -> u8 {
    g[row * w + col]
}

/// `s` with `v` appended when `present` holds.
pub open spec fn push_if(s: Seq<u8>, present: bool, v: u8) -> Seq<u8> {
    if present {
        s.push(v)
    } else {
        s
    }
}

/// The values directly above, below, left and right of `(col, row)` that lie
/// within a `w` by `h` grid, in that order.
pub open spec fn cardinal_values(g: Seq<u8>, w: int, h: int, col: int, row: int) -> Seq<u8> {
    let above = push_if(Seq::empty(), row > 0, value_at(g, w, col, row - 1));
    let below = push_if(above, row < h - 1, value_at(g, w, col, row + 1));
    let left = push_if(below, col > 0, value_at(g, w, col - 1, row));
    push_if(left, col < w - 1, value_at(g, w, col + 1, row))
}

/// The values corner-adjacent to `(col, row)` that lie within a `w` by `h`
/// grid: upper left, upper right, lower left, lower right.
pub open spec fn diagonal_values(g: Seq<u8>, w: int, h: int, col: int, row: int) -> Seq<u8> {
    let up_left = push_if(Seq::empty(), row > 0 && col > 0, value_at(g, w, col - 1, row - 1));
    let up_right = push_if(up_left, row > 0 && col < w - 1, value_at(g, w, col + 1, row - 1));
    let down_left = push_if(up_right, row < h - 1 && col > 0, value_at(g, w, col - 1, row + 1));
    push_if(down_left, row < h - 1 && col < w - 1, value_at(g, w, col + 1, row + 1))
}

/// The value that position `(col, row)` takes in the next generation.
pub open spec fn next_value_at(g: Seq<u8>, w: int, h: int, col: int, row: int) -> u8 {
    evolved_value(
        value_at(g, w, col, row),
        cardinal_values(g, w, h, col, row),
        diagonal_values(g, w, h, col, row),
    )
}

/// The whole next generation of a row-major `w` by `h` grid, every position
/// computed from the values of `g` alone.
pub open spec fn next_generation(g: Seq<u8>, w: int, h: int) -> Seq<u8> {
    Seq::new(g.len(), |k: int| next_value_at(g, w, h, k % w, k / w))
}

/// Position `(col, row)` of a `w` by `h` grid lies in its row-major storage.
pub proof fn lemma_index_in_bounds(w: int, h: int, col: int, row: int)
    requires
        0 <= col < w,
        0 <= row < h,
    ensures
        0 <= row * w + col < w * h,
{
    assert(0 <= row * w + col < w * h) by (nonlinear_arith)
        requires
            0 <= col < w,
            0 <= row < h,
    ;
}

/// Outside a single-cell grid every position has a cardinal neighbour.
pub proof fn lemma_cardinal_nonempty(g: Seq<u8>, w: int, h: int, col: int, row: int)
    requires
        0 <= col < w,
        0 <= row < h,
        !(w == 1 && h == 1),
    ensures
        cardinal_values(g, w, h, col, row).len() > 0,
{
}

/// Every position of the grid already holds the rounded weighted average of
/// its neighbours.
pub open spec fn is_balanced(g: Seq<u8>, w: int, h: int) -> bool {
    forall|col: int, row: int|
        0 <= col < w && 0 <= row < h ==> rounded_average(
            cardinal_values(g, w, h, col, row),
            diagonal_values(g, w, h, col, row),
        ) == #[trigger] value_at(g, w, col, row)
}

/// A grid in which every cell already equals the rounded weighted average of
/// its neighbours is a fixed point: the next generation is the grid itself.
pub proof fn lemma_balanced_grid_is_fixed_point(g: Seq<u8>, w: int, h: int)
    requires
        w >= 0,
        h >= 0,
        g.len() == w * h,
        is_balanced(g, w, h),
    ensures
        next_generation(g, w, h) == g,
{
    assert forall|k: int| 0 <= k < g.len() implies #[trigger] next_generation(g, w, h)[k] == g[k] by {
        if w == 0 {
            assert(w * h == 0);
        }
        lemma_fundamental_div_mod(k, w);
        let col = k % w;
        let row = k / w;
        assert(0 <= row < h) by (nonlinear_arith)
            requires
                k == w * row + col,
                0 <= col < w,
                0 <= k < w * h,
        ;
        assert(row * w + col == k) by (nonlinear_arith)
            requires
                k == w * row + col,
        ;
        assert(value_at(g, w, col, row) == g[k]);
    }
    assert(next_generation(g, w, h) =~= g);
}

/// In a grid of one row or one column no position has a diagonal neighbour,
/// so the weighted average is taken over cardinal neighbours alone; unless
/// the grid is a single cell, each position has at least one of them.
pub proof fn lemma_single_line_has_cardinal_neighbours_only(g: Seq<u8>, w: int, h: int, col: int, row: int)
    requires
        w == 1 || h == 1,
        !(w == 1 && h == 1),
        0 <= col < w,
        0 <= row < h,
    ensures
        diagonal_values(g, w, h, col, row).len() == 0,
        cardinal_values(g, w, h, col, row).len() > 0,
{
}

/// Reading the cells of a grid built from `cells` gives back `cells`, in the
/// same row-major order.
pub proof fn lemma_read_back_after_construction(cells: Seq<Cell>, u: Universe, read: Seq<Cell>)
    requires
        u.values() == cell_values(cells),
        cell_values(read) == u.values(),
    ensures
        read == cells,
{
    lemma_cells_determined_by_values(read, cells);
}

/// `n` cells fill a square grid whose side fits in a byte.
pub open spec fn is_square_count(n: int) -> bool {
    exists|side: int| 0 <= side <= 255 && #[trigger] (side * side) == n
}

/// Squares grow with their side.
pub proof fn lemma_square_monotonic(a: int, b: int)
    requires
        0 <= a <= b,
    ensures
        a * a <= b * b,
{
    assert(a * a <= b * b) by (nonlinear_arith)
        requires
            0 <= a <= b,
    ;
}

/// A rectangular grid of cells stored row by row.
pub struct Universe {
    width: u8,
    height: u8,
    cells: Vec<Cell>,
}

impl Universe {
    /// The storage holds exactly `width * height` cells.
    pub closed spec fn wf(&self) -> bool {
        self.cells@.len() == self.width as int * self.height as int
    }

    pub closed spec fn spec_width(&self) -> int {
        self.width as int
    }

    pub closed spec fn spec_height(&self) -> int {
        self.height as int
    }

    /// The values of the cells, row by row.
    pub closed spec fn values(&self) -> Seq<u8> {
        cell_values(self.cells@)
    }

    /// Builds a `width` by `height` grid from `cells`, given row by row.
    /// Fails when either side is 0 or the number of cells is not
    /// `width * height`.
    pub fn with_dimensions(width: u8, height: u8, cells: Vec<Cell>) -> (r: Result<Universe, UniverseError>)
        ensures
            r is Ok <==> width > 0 && height > 0 && cells@.len() == width * height,
            r is Err ==> r == Err::<Universe, UniverseError>(UniverseError::InvalidDimensions),
            r matches Ok(u) ==> {
                &&& u.wf()
                &&& u.spec_width() == width
                &&& u.spec_height() == height
                &&& u.values() == cell_values(cells@)
            },
    {
        proof {
            assert(width * height <= 255 * 255) by (nonlinear_arith)
                requires
                    width <= 255,
                    height <= 255,
            ;
        }
        let count: u32 = width as u32 * height as u32;
        if width > 0 && height > 0 && cells.len() == count as usize {
            Ok(Universe { width, height, cells })
        } else {
            Err(UniverseError::InvalidDimensions)
        }
    }

    /// Builds a square grid from `cells`, given row by row; its side is the
    /// square root of their number. Fails when that number is not the square
    /// of a side from 1 to 255.
    pub fn new(cells: Vec<Cell>) -> (r: Result<Universe, UniverseError>)
        ensures
            r is Ok <==> cells@.len() > 0 && is_square_count(cells@.len() as int),
            r is Err ==> r == Err::<Universe, UniverseError>(UniverseError::InvalidDimensions),
            r matches Ok(u) ==> {
                &&& u.wf()
                &&& u.spec_width() == u.spec_height()
                &&& u.spec_width() * u.spec_width() == cells@.len()
                &&& u.values() == cell_values(cells@)
            },
    {
        let n = cells.len();
        let mut side: usize = 0;
        while side < 255 && side * side < n
            invariant
                side <= 255,
                side * side <= 255 * 255,
                n == cells@.len(),
                forall|t: int| 0 <= t < side ==> #[trigger] (t * t) < n,
            decreases 255 - side,
        {
            side = side + 1;
            proof {
                assert(side * side <= 255 * 255) by (nonlinear_arith)
                    requires
                        side <= 255,
                ;
            }
        }
        proof {
            assert(side * side <= 255 * 255) by (nonlinear_arith)
                requires
                    side <= 255,
            ;
        }
        if n > 0 && side * side == n {
            proof {
                assert(is_square_count(n as int));
            }
            Ok(Universe { width: side as u8, height: side as u8, cells })
        } else {
            proof {
                if n > 0 {
                    assert forall|t: int| 0 <= t <= 255 implies #[trigger] (t * t) != n by {
                        if t >= side {
                            lemma_square_monotonic(side as int, t);
                        }
                        if side == 255 && t < 255 {
                            lemma_square_monotonic(t, 255);
                        }
                    }
                }
            }
            Err(UniverseError::InvalidDimensions)
        }
    }

    pub fn width(&self) -> (r: u8)
        ensures
            r == self.spec_width(),
    {
        self.width
    }

    pub fn height(&self) -> (r: u8)
        ensures
            r == self.spec_height(),
    {
        self.height
    }

    pub fn cells(&self) -> (r: &Vec<Cell>)
        ensures
            cell_values(r@) == self.values(),
    {
        &self.cells
    }

    fn get_cell_index(&self, col: u8, row: u8) -> (r: usize)
        requires
            self.wf(),
            col < self.width,
            row < self.height,
        ensures
            r == row * self.width + col,
            r < self.cells@.len(),
    {
        let n = self.cells.len();
        proof {
            lemma_index_in_bounds(self.width as int, self.height as int, col as int, row as int);
            assert(row as int * self.width as int <= n);
        }
        row as usize * self.width as usize + col as usize
    }

    /// Appends the cell at `(col, row)` to `out`.
    fn push_cell<'a>(&'a self, out: &mut Vec<&'a Cell>, col: u8, row: u8)
        requires
            self.wf(),
            col < self.width,
            row < self.height,
        ensures
            values_of(final(out)@) == values_of(old(out)@).push(
                value_at(self.values(), self.width as int, col as int, row as int),
            ),
    {
        let i = self.get_cell_index(col, row);
        proof {
            lemma_values_of_push(out@, &self.cells@[i as int]);
        }
        out.push(&self.cells[i]);
    }

    /// The cells directly above, below, left and right of `(col, row)`.
    fn cardinal_neighbours(&self, col: u8, row: u8) -> (r: Vec<&Cell>)
        requires
            self.wf(),
            col < self.width,
            row < self.height,
        ensures
            values_of(r@) == cardinal_values(
                self.values(),
                self.width as int,
                self.height as int,
                col as int,
                row as int,
            ),
    {
        let mut r: Vec<&Cell> = Vec::new();
        proof {
            assert(values_of(r@) =~= Seq::empty());
        }
        if row > 0 {
            self.push_cell(&mut r, col, row - 1);
        }
        if row < self.height - 1 {
            self.push_cell(&mut r, col, row + 1);
        }
        if col > 0 {
            self.push_cell(&mut r, col - 1, row);
        }
        if col < self.width - 1 {
            self.push_cell(&mut r, col + 1, row);
        }
        r
    }

    /// Advances the grid by one generation. Every new value is computed from
    /// the values before the call; the results are then copied into the
    /// existing storage, which is never replaced. A single-cell grid has no
    /// neighbours and is left out.
    pub fn evolve(&mut self)
        requires
            old(self).wf(),
            !(old(self).spec_width() == 1 && old(self).spec_height() == 1),
        ensures
            final(self).wf(),
            final(self).spec_width() == old(self).spec_width(),
            final(self).spec_height() == old(self).spec_height(),
            final(self).values() == next_generation(
                old(self).values(),
                old(self).spec_width(),
                old(self).spec_height(),
            ),
    {
        let w = self.width;
        let h = self.height;
        let ghost g = self.values();
        let ghost next = next_generation(g, w as int, h as int);
        let mut new_cells: Vec<Cell> = Vec::with_capacity(self.cells.len());
        let mut row: u8 = 0;
        while row < h
            invariant
                self.wf(),
                self.width == w,
                self.height == h,
                self.values() == g,
                !(w == 1 && h == 1),
                g.len() == w * h,
                next == next_generation(g, w as int, h as int),
                row <= h,
                new_cells@.len() == row * w,
                forall|k: int| 0 <= k < new_cells@.len() ==> #[trigger] new_cells@[k]@ == next[k],
            decreases h - row,
        {
            let mut col: u8 = 0;
            while col < w
                invariant
                    self.wf(),
                    self.width == w,
                    self.height == h,
                    self.values() == g,
                    !(w == 1 && h == 1),
                    g.len() == w * h,
                    next == next_generation(g, w as int, h as int),
                    row < h,
                    col <= w,
                    new_cells@.len() == row * w + col,
                    forall|k: int| 0 <= k < new_cells@.len() ==> #[trigger] new_cells@[k]@ == next[k],
                decreases w - col,
            {
                let i = self.get_cell_index(col, row);
                let cardinal = self.cardinal_neighbours(col, row);
                let diagonal = self.diagonal_neighbours(col, row);
                proof {
                    lemma_fundamental_div_mod_converse(i as int, w as int, row as int, col as int);
                    lemma_cardinal_nonempty(g, w as int, h as int, col as int, row as int);
                }
                let c = self.cells[i].evolve(&cardinal, &diagonal);
                proof {
                    assert(g[i as int] == self.cells@[i as int]@);
                    assert(next[i as int] == next_value_at(g, w as int, h as int, col as int, row as int));
                    assert(c@ == next[i as int]);
                }
                new_cells.push(c);
                col = col + 1;
            }
            proof {
                assert(new_cells@.len() == (row + 1) * w) by (nonlinear_arith)
                    requires
                        new_cells@.len() == row * w + w,
                ;
            }
            row = row + 1;
        }
        proof {
            assert(new_cells@.len() == g.len()) by (nonlinear_arith)
                requires
                    new_cells@.len() == row * w,
                    row == h,
                    g.len() == w * h,
            ;
        }
        let mut i: usize = 0;
        while i < new_cells.len()
            invariant
                new_cells@.len() == g.len(),
                self.cells@.len() == g.len(),
                self.width == w,
                self.height == h,
                g.len() == w * h,
                next == next_generation(g, w as int, h as int),
                i <= g.len(),
                forall|k: int| 0 <= k < new_cells@.len() ==> #[trigger] new_cells@[k]@ == next[k],
                forall|k: int| 0 <= k < i ==> #[trigger] self.cells@[k] == new_cells@[k],
            decreases g.len() - i,
        {
            self.cells.set(i, new_cells[i]);
            i = i + 1;
        }
        proof {
            assert(self.values() =~= next);
        }
    }

    /// The cells corner-adjacent to `(col, row)`.
    fn diagonal_neighbours(&self, col: u8, row: u8) -> (r: Vec<&Cell>)
        requires
            self.wf(),
            col < self.width,
            row < self.height,
        ensures
            values_of(r@) == diagonal_values(
                self.values(),
                self.width as int,
                self.height as int,
                col as int,
                row as int,
            ),
    {
        let mut r: Vec<&Cell> = Vec::new();
        proof {
            assert(values_of(r@) =~= Seq::empty());
        }
        if row > 0 && col > 0 {
            self.push_cell(&mut r, col - 1, row - 1);
        }
        if row > 0 && col < self.width - 1 {
            self.push_cell(&mut r, col + 1, row - 1);
        }
        if row < self.height - 1 && col > 0 {
            self.push_cell(&mut r, col - 1, row + 1);
        }
        if row < self.height - 1 && col < self.width - 1 {
            self.push_cell(&mut r, col + 1, row + 1);
        }
        r
    }
}

} // verus!
