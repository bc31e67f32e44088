use vstd::prelude::*;

verus! {

/// A rectangular two-dimensional array kept as one flat, row-major buffer.
///
/// Every later pipeline stage works on one of these, reading it through the
/// bounds-safe [`Grid::sample_or`] accessor so that no stage needs explicit
/// range checks of its own.
pub struct Grid<T> {
    pub width: usize,
    pub height: usize,
    pub cells: Vec<T>,
}

/// The flat index of cell (x, y) in a row-major buffer of row length `w`.
pub open spec fn flat_index(w: int, x: int, y: int) -> int {
    y * w + x
}

/// Row-major indices of in-bounds cells stay inside the buffer.
pub proof fn lemma_flat_index_bound(w: int, h: int, x: int, y: int)
    by (nonlinear_arith)
    requires
        0 <= x < w,
        0 <= y < h,
    ensures
        0 <= flat_index(w, x, y) < w * h,
{
}

/// Row-major order agrees with the lexicographic order on (y, x).
pub proof fn lemma_flat_index_lt(w: int, x1: int, y1: int, x2: int, y2: int)
    by (nonlinear_arith)
    requires
        0 <= x1 < w,
        0 <= x2 < w,
        0 <= y1,
        0 <= y2,
        y1 < y2 || (y1 == y2 && x1 < x2),
    ensures
        flat_index(w, x1, y1) < flat_index(w, x2, y2),
{
}

/// Distinct in-bounds cells have distinct row-major indices.
pub proof fn lemma_flat_index_injective(w: int, x1: int, y1: int, x2: int, y2: int)
    by (nonlinear_arith)
    requires
        0 <= x1 < w,
        0 <= x2 < w,
        0 <= y1,
        0 <= y2,
        x1 != x2 || y1 != y2,
    ensures
        flat_index(w, x1, y1) != flat_index(w, x2, y2),
{
}

/// The value of cell (x, y) in the flat buffer `s` of row length `w`, height
/// `h`, or `default` when (x, y) lies outside those bounds.
pub open spec fn cell_or<T>(s: Seq<T>, w: int, h: int, x: int, y: int, default: T) -> T
    recommends
        s.len() == w * h,
{
    if 0 <= x < w && 0 <= y < h {
        s[flat_index(w, x, y)]
    } else {
        default
    }
}

impl<T> Grid<T> {
    /// The buffer holds exactly one sample for every cell.
    pub open spec fn wf(self) -> bool {
        self.cells@.len() == self.width * self.height
    }

    /// The sample at in-bounds cell (x, y).
    pub open spec fn at(self, x: int, y: int) -> T
        recommends
            self.wf(),
            0 <= x < self.width,
            0 <= y < self.height,
    {
        self.cells@[flat_index(self.width as int, x, y)]
    }

    /// [`Grid::at`] extended with a default for out-of-bounds coordinates.
    pub open spec fn at_or(self, x: int, y: int, default: T) -> T
        recommends
            self.wf(),
    {
        cell_or(self.cells@, self.width as int, self.height as int, x, y, default)
    }

    /// Both grids have the same width and height.
    pub open spec fn same_dims(self, other: Grid<T>) -> bool {
        self.width == other.width && self.height == other.height
    }
}

impl<T: Copy> Grid<T> {
    /// Wraps an already-filled row-major buffer.
    pub fn from_raw(width: usize, height: usize, cells: Vec<T>) -> (g: Grid<T>)
        requires
            cells@.len() == width * height,
        ensures
            g.wf(),
            g.width == width,
            g.height == height,
            g.cells@ == cells@,
    {
        Grid { width, height, cells }
    }

    /// The sample at in-bounds cell (x, y).
    pub fn get(&self, x: usize, y: usize) -> (r: T)
        requires
            self.wf(),
            x < self.width,
            y < self.height,
        ensures
            r == self.at(x as int, y as int),
    {
        proof {
            assert(self.cells.len() == self.cells@.len());
            lemma_flat_index_bound(self.width as int, self.height as int, x as int, y as int);
        }
        self.cells[y * self.width + x]
    }

    /// Overwrites the sample at in-bounds cell (x, y).
    pub fn set(&mut self, x: usize, y: usize, value: T)
        requires
            old(self).wf(),
            x < old(self).width,
            y < old(self).height,
        ensures
            final(self).wf(),
            final(self).same_dims(*old(self)),
            final(self).cells@ == old(self).cells@.update(
                flat_index(old(self).width as int, x as int, y as int),
                value,
            ),
    {
        proof {
            assert(self.cells.len() == self.cells@.len());
            lemma_flat_index_bound(self.width as int, self.height as int, x as int, y as int);
        }
        let i = y * self.width + x;
        self.cells.set(i, value);
    }

    /// Bounds-safe read: the sample at (x, y), or `default` whenever either
    /// coordinate falls outside the grid.
    pub fn sample_or(&self, x: isize, y: isize, default: T) -> (r: T)
        requires
            self.wf(),
        ensures
            r == self.at_or(x as int, y as int, default),
    {
        if x < 0 || y < 0 {
            return default;
        }
        let xi = x as usize;
        let yi = y as usize;
        if xi < self.width && yi < self.height {
            self.get(xi, yi)
        } else {
            default
        }
    }
}

} // verus!
