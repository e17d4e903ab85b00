//! A dense two-dimensional board of cells, optionally wrapped into a torus.

use vstd::prelude::*;
use crate::game::{Coord, abs};

verus! {

/// Cell types that have a distinguished empty value.
pub trait Blank: Copy + Sized {
    spec fn blank_spec() -> Self;

    fn blank() -> (r: Self)
        ensures
            r == Self::blank_spec(),
    ;
}

/// A `width` x `height` board stored row by row. On a wrapped board every
/// coordinate is reduced modulo the board's size.
#[derive(Clone, Debug)]
pub struct Grid<T> {
    pub width: usize,
    pub height: usize,
    pub wrapped: bool,
    pub cells: Vec<T>,
}

/// Euclidean remainder of `v` by a positive `n`.
pub open spec fn emod(v: int, n: int) -> int {
    v % n
}

/// The distance along one axis of a wrapped board: the shorter way round.
pub open spec fn wrapped_axis(d: int, n: int) -> int {
    if d > n / 2 { n - d } else { d }
}

impl<T> Grid<T> {
    /// Dimensions that the cell buffer matches and that fit the coordinate type.
    pub open spec fn wf(&self) -> bool {
        &&& 0 < self.width <= i32::MAX
        &&& 0 < self.height <= i32::MAX
        &&& self.cells@.len() == self.width * self.height
    }

    pub open spec fn contains_spec(&self, c: Coord) -> bool {
        self.wrapped || (0 <= c.x < self.width && 0 <= c.y < self.height)
    }

    /// The column of a coordinate, reduced on a wrapped board.
    pub open spec fn col(&self, c: Coord) -> int {
        if self.wrapped { emod(c.x as int, self.width as int) } else { c.x as int }
    }

    /// The row of a coordinate, reduced on a wrapped board.
    pub open spec fn row(&self, c: Coord) -> int {
        if self.wrapped { emod(c.y as int, self.height as int) } else { c.y as int }
    }

    /// Position in `cells` of the cell that a coordinate names.
    pub open spec fn idx(&self, c: Coord) -> int {
        self.row(c) * self.width + self.col(c)
    }

    /// The cell that a coordinate names.
    pub open spec fn at(&self, c: Coord) -> T {
        self.cells@[self.idx(c)]
    }

    pub open spec fn dist_spec(&self, a: Coord, b: Coord) -> int {
        if self.wrapped {
            wrapped_axis(abs(a.x - b.x), self.width as int) + wrapped_axis(
                abs(a.y - b.y),
                self.height as int,
            )
        } else {
            abs(a.x - b.x) + abs(a.y - b.y)
        }
    }

    /// Coordinates for which `manhattan_dist` is defined: a wrapped board
    /// needs each axis difference within one board length.
    pub open spec fn dist_defined(&self, a: Coord, b: Coord) -> bool {
        if self.wrapped {
            abs(a.x - b.x) <= self.width && abs(a.y - b.y) <= self.height
        } else {
            abs(a.x - b.x) + abs(a.y - b.y) <= i32::MAX
        }
    }

    pub open spec fn max_dist_spec(&self) -> int {
        if self.wrapped {
            (self.height + self.width) / 2
        } else {
            self.height + self.width
        }
    }

    pub proof fn lemma_idx_bounds(&self, c: Coord)
        requires
            self.wf(),
            self.contains_spec(c),
        ensures
            0 <= self.col(c) < self.width,
            0 <= self.row(c) < self.height,
            0 <= self.idx(c) < self.cells@.len(),
    {
        let w = self.width as int;
        let h = self.height as int;
        let x = self.col(c);
        let y = self.row(c);
        assert(0 <= y * w + x < w * h) by (nonlinear_arith)
            requires
                0 <= x < w,
                0 <= y < h,
        ;
    }

    /// Coordinates within `[0, width) x [0, height)`.
    pub open spec fn in_range(&self, c: Coord) -> bool {
        0 <= c.x < self.width && 0 <= c.y < self.height
    }

    /// The coordinate within the board's range that names the same cell.
    pub fn canonical(&self, pos: Coord) -> (r: Coord)
        requires
            self.wf(),
            self.contains_spec(pos),
        ensures
            self.in_range(r),
            self.idx(r) == self.idx(pos),
    {
        if self.wrapped {
            let r = Coord { x: reduce(pos.x, self.width as i32), y: reduce(pos.y, self.height as i32) };
            assert(emod(r.x as int, self.width as int) == r.x) by (nonlinear_arith)
                requires 0 <= r.x < self.width;
            assert(emod(r.y as int, self.height as int) == r.y) by (nonlinear_arith)
                requires 0 <= r.y < self.height;
            r
        } else {
            pos
        }
    }

    /// On a wrapped board no two cells are further apart than half the
    /// perimeter; on a plain board two cells on it are at most width plus
    /// height minus two apart. Either way the distance stays within `max_dist`.
    pub proof fn lemma_distance_bounds(&self, a: Coord, b: Coord)
        requires
            self.wf(),
            self.dist_defined(a, b),
            !self.wrapped ==> self.in_range(a) && self.in_range(b),
        ensures
            self.wrapped ==> self.dist_spec(a, b) <= (self.width + self.height) / 2,
            !self.wrapped ==> self.dist_spec(a, b) <= self.width + self.height - 2,
            self.dist_spec(a, b) <= self.max_dist_spec(),
    {
    }

    /// Whether a coordinate lies on the board (always so on a wrapped board).
    pub fn contains(&self, pos: Coord) -> (r: bool)
        requires
            self.wf(),
        ensures
            r == self.contains_spec(pos),
    {
        if self.wrapped {
            return true;
        }
        if pos.x < 0 || self.width as i32 <= pos.x {
            return false;
        }
        if pos.y < 0 || self.height as i32 <= pos.y {
            return false;
        }
        true
    }

    /// Largest distance between two cells: half the perimeter on a wrapped
    /// board, otherwise width plus height.
    pub fn max_dist(&self) -> (r: u32)
        requires
            self.wf(),
        ensures
            r == self.max_dist_spec(),
    {
        let s: u64 = self.height as u64 + self.width as u64;
        if self.wrapped {
            (s / 2) as u32
        } else {
            s as u32
        }
    }

    /// Manhattan distance; on a wrapped board each axis goes the shorter way round.
    pub fn manhattan_dist(&self, pos1: &Coord, pos2: &Coord) -> (r: u32)
        requires
            self.wf(),
            self.dist_defined(*pos1, *pos2),
        ensures
            r == self.dist_spec(*pos1, *pos2),
    {
        if self.wrapped {
            let dx: i64 = pos1.x as i64 - pos2.x as i64;
            let dy: i64 = pos1.y as i64 - pos2.y as i64;
            let mut x_diff: i64 = if dx < 0 { -dx } else { dx };
            let mut y_diff: i64 = if dy < 0 { -dy } else { dy };
            let w = self.width as i64;
            let h = self.height as i64;
            if x_diff > w / 2 {
                x_diff = w - x_diff;
            }
            if y_diff > h / 2 {
                y_diff = h - y_diff;
            }
            (x_diff + y_diff) as u32
        } else {
            pos1.manhattan_dist(pos2)
        }
    }

    /// Moves a coordinate that lies at most one board length outside back
    /// onto the board, axis by axis.
    pub fn wrap_around(&self, coord: &mut Coord)
        requires
            self.wf(),
        ensures
            final(coord).x == (if old(coord).x < 0 {
                old(coord).x + self.width
            } else if old(coord).x >= self.width {
                old(coord).x - self.width
            } else {
                old(coord).x as int
            }),
            final(coord).y == (if old(coord).y < 0 {
                old(coord).y + self.height
            } else if old(coord).y >= self.height {
                old(coord).y - self.height
            } else {
                old(coord).y as int
            }),
    {
        let width = self.width as i32;
        let height = self.height as i32;
        if coord.x < 0 {
            coord.x = coord.x + width;
        } else if coord.x >= width {
            coord.x = coord.x - width;
        }
        if coord.y < 0 {
            coord.y = coord.y + height;
        } else if coord.y >= height {
            coord.y = coord.y - height;
        }
    }

    /// Position in `cells` of the cell that a coordinate names.
    pub fn index_of(&self, pos: Coord) -> (r: usize)
        requires
            self.wf(),
            self.contains_spec(pos),
        ensures
            r == self.idx(pos),
            r < self.cells@.len(),
    {
        proof {
            self.lemma_idx_bounds(pos);
        }
        let (x, y) = if self.wrapped {
            (reduce(pos.x, self.width as i32), reduce(pos.y, self.height as i32))
        } else {
            (pos.x, pos.y)
        };
        assert(x as int == self.col(pos) && y as int == self.row(pos));
        let yy = y as usize;
        let n = self.cells.len();
        assert(yy * self.width <= self.idx(pos)) by (nonlinear_arith)
            requires
                self.idx(pos) == yy * self.width + x,
                x >= 0,
        ;
        assert(self.idx(pos) < n);
        yy * self.width + (x as usize)
    }

    /// The cell at a coordinate.
    pub fn get(&self, pos: Coord) -> (r: &T)
        requires
            self.wf(),
            self.contains_spec(pos),
        ensures
            *r == self.at(pos),
    {
        let i = self.index_of(pos);
        &self.cells[i]
    }

    /// Overwrites the cell at a coordinate.
    pub fn set(&mut self, pos: Coord, value: T)
        requires
            old(self).wf(),
            old(self).contains_spec(pos),
        ensures
            final(self).width == old(self).width,
            final(self).height == old(self).height,
            final(self).wrapped == old(self).wrapped,
            final(self).wf(),
            0 <= old(self).idx(pos) < old(self).cells@.len(),
            final(self).cells@ == old(self).cells@.update(old(self).idx(pos), value),
    {
        let i = self.index_of(pos);
        self.cells[i] = value;
    }
}

/// Euclidean remainder of `v` by a positive `n`.
fn reduce(v: i32, n: i32) -> (r: i32)
    requires
        n > 0,
    ensures
        r == emod(v as int, n as int),
        0 <= r < n,
{
    match v.checked_rem_euclid(n) {
        Some(r) => r,
        std::option::Option::None => 0,
    }
}

impl<T: Blank> Grid<T> {
    /// A board of blank cells.
    pub fn new(width: usize, height: usize, wrapped: bool) -> (r: Self)
        requires
            0 < width <= i32::MAX,
            0 < height <= i32::MAX,
            width * height <= usize::MAX,
        ensures
            r.wf(),
            r.width == width,
            r.height == height,
            r.wrapped == wrapped,
            forall|i: int| 0 <= i < r.cells@.len() ==> r.cells@[i] == T::blank_spec(),
    {
        let n = width * height;
        let mut cells: Vec<T> = Vec::with_capacity(n);
        let mut i: usize = 0;
        while i < n
            invariant
                i <= n,
                cells@.len() == i,
                forall|j: int| 0 <= j < i ==> cells@[j] == T::blank_spec(),
            decreases n - i,
        {
            cells.push(T::blank());
            i = i + 1;
        }
        Grid { width, height, wrapped, cells }
    }

    /// Resets every cell to blank.
    pub fn clear(&mut self)
        ensures
            final(self).width == old(self).width,
            final(self).height == old(self).height,
            final(self).wrapped == old(self).wrapped,
            final(self).cells@.len() == old(self).cells@.len(),
            forall|i: int| 0 <= i < final(self).cells@.len() ==> final(self).cells@[i] == T::blank_spec(),
    {
        let n = self.cells.len();
        let mut i: usize = 0;
        while i < n
            invariant
                i <= n,
                self.cells@.len() == n,
                self.width == old(self).width,
                self.height == old(self).height,
                self.wrapped == old(self).wrapped,
                n == old(self).cells@.len(),
                forall|j: int| 0 <= j < i ==> self.cells@[j] == T::blank_spec(),
            decreases n - i,
        {
            self.cells[i] = T::blank();
            i = i + 1;
        }
    }
}

} // verus!
