//! The occupancy grid: dimensions, a row-major array of blocked flags, and the
//! vocabulary (bounds, adjacency, routes) that the search is specified in.

use vstd::prelude::*;

verus! {

/// A cell of the grid as `(x, y)`: column first, then row.
pub type Position = (u32, u32);

/// Mathematical model of a grid: `cells[x + y * width]` is `true` where the
/// cell `(x, y)` is impassable.
pub struct GridView {
    pub width: nat,
    pub height: nat,
    pub cells: Seq<bool>,
}

impl GridView {
    /// The array holds exactly one flag per cell.
    pub open spec fn wf(self) -> bool {
        self.cells.len() == self.width * self.height
    }

    /// Number of cells.
    pub open spec fn area(self) -> nat {
        self.width * self.height
    }

    pub open spec fn in_bounds(self, p: Position) -> bool {
        p.0 < self.width && p.1 < self.height
    }

    /// Row-major index of a cell.
    pub open spec fn index_of(self, p: Position) -> int {
        p.0 + p.1 * self.width
    }

    pub open spec fn blocked(self, p: Position) -> bool {
        self.cells[self.index_of(p)]
    }

    /// In bounds and not blocked.
    pub open spec fn passable(self, p: Position) -> bool {
        self.in_bounds(p) && !self.blocked(p)
    }

    /// No cell of the grid is blocked.
    pub open spec fn clear(self) -> bool {
        forall|i: int| 0 <= i < self.cells.len() ==> !self.cells[i]
    }
}

/// `a` comes before `b` in the order of cells: by `x`, then by `y`.
pub open spec fn cell_before(a: Position, b: Position) -> bool {
    a.0 < b.0 || (a.0 == b.0 && a.1 < b.1)
}

/// Two distinct cells that differ by at most one in each coordinate.
pub open spec fn adjacent(a: Position, b: Position) -> bool {
    &&& a != b
    &&& a.0 - b.0 <= 1
    &&& b.0 - a.0 <= 1
    &&& a.1 - b.1 <= 1
    &&& b.1 - a.1 <= 1
}

/// `path` leads from `start` to `goal` over passable cells, each step going
/// to one of the eight neighbours.
pub open spec fn is_path(grid: GridView, start: Position, goal: Position, path: Seq<Position>) -> bool {
    &&& path.len() >= 1
    &&& path[0] == start
    &&& path[path.len() - 1] == goal
    &&& forall|i: int| 0 <= i < path.len() ==> grid.passable(#[trigger] path[i])
    &&& forall|i: int| 0 <= i < path.len() - 1 ==> adjacent(#[trigger] path[i], path[i + 1])
}

/// Some route leads from `start` to `goal`.
pub open spec fn reachable(grid: GridView, start: Position, goal: Position) -> bool {
    exists|path: Seq<Position>| is_path(grid, start, goal, path)
}

/// Row-major indices of in-bounds cells lie inside the array, and distinct
/// cells have distinct indices.
pub proof fn lemma_index_of(grid: GridView, p: Position)
    requires
        grid.in_bounds(p),
    ensures
        0 <= grid.index_of(p) < grid.area(),
        grid.index_of(p) % (grid.width as int) == p.0,
        grid.index_of(p) / (grid.width as int) == p.1,
{
    let w = grid.width as int;
    let h = grid.height as int;
    let x = p.0 as int;
    let y = p.1 as int;
    assert(x + y * w < w * h) by (nonlinear_arith)
        requires
            0 <= x < w,
            0 <= y < h,
    ;
    assert(0 <= y * w) by (nonlinear_arith)
        requires
            0 <= y,
            0 <= w,
    ;
    assert((x + y * w) % w == x && (x + y * w) / w == y) by {
        vstd::arithmetic::div_mod::lemma_fundamental_div_mod_converse(x + y * w, w, y, x);
    }
}

/// Cells of one grid with the same row-major index are the same cell.
pub proof fn lemma_index_injective(grid: GridView, p: Position, q: Position)
    requires
        grid.in_bounds(p),
        grid.in_bounds(q),
        grid.index_of(p) == grid.index_of(q),
    ensures
        p == q,
{
    lemma_index_of(grid, p);
    lemma_index_of(grid, q);
}

/// Why a grid could not be built.
#[derive(Clone, Copy, Debug, PartialEq, Eq, Structural)]
pub enum MapError {
    /// The array does not hold `width * height` flags.
    DimensionMismatch,
}

/// A fixed-size occupancy grid.
pub struct GridMap {
    width: usize,
    height: usize,
    tiles: Vec<bool>,
}

impl View for GridMap {
    type V = GridView;

    closed spec fn view(&self) -> GridView {
        GridView { width: self.width as nat, height: self.height as nat, cells: self.tiles@ }
    }
}

impl GridMap {
    /// The invariant of every grid that the constructors hand out.
    pub open spec fn wf(&self) -> bool {
        self@.wf()
    }

    /// Builds a grid from its dimensions and its row-major blocked flags.
    /// Fails exactly when `cells` does not hold `width * height` flags.
    pub fn from_cells(width: usize, height: usize, cells: Vec<bool>) -> (result: Result<GridMap, MapError>)
        ensures
            cells.len() == width * height ==> result.is_ok(),
            match result {
                Ok(map) => {
                    &&& map.wf()
                    &&& map@.width == width
                    &&& map@.height == height
                    &&& map@.cells == cells@
                },
                Err(e) => e == MapError::DimensionMismatch && cells.len() != width * height,
            },
    {
        match width.checked_mul(height) {
            Some(area) => {
                if area == cells.len() {
                    Ok(GridMap { width, height, tiles: cells })
                } else {
                    Err(MapError::DimensionMismatch)
                }
            },
            None => Err(MapError::DimensionMismatch),
        }
    }

    /// The cells of a grid can be counted in a machine word.
    pub proof fn lemma_area_fits(&self)
        requires
            self.wf(),
        ensures
            self@.area() <= usize::MAX,
    {
        assert(self@.area() == self.tiles.len() <= usize::MAX);
    }

    /// Puts a grid together from parts that are known to fit.
    pub(crate) fn assemble(width: usize, height: usize, cells: Vec<bool>) -> (map: GridMap)
        requires
            cells.len() == width * height,
        ensures
            map.wf(),
            map@.width == width,
            map@.height == height,
            map@.cells == cells@,
    {
        GridMap { width, height, tiles: cells }
    }

    pub fn width(&self) -> (w: usize)
        ensures
            w == self@.width,
    {
        self.width
    }

    pub fn height(&self) -> (h: usize)
        ensures
            h == self@.height,
    {
        self.height
    }

    /// Number of cells.
    pub fn area(&self) -> (n: usize)
        requires
            self.wf(),
        ensures
            n == self@.area(),
    {
        self.tiles.len()
    }

    pub fn in_bounds(&self, pos: Position) -> (b: bool)
        ensures
            b == self@.in_bounds(pos),
    {
        (pos.0 as usize) < self.width && (pos.1 as usize) < self.height
    }

    /// Row-major index of an in-bounds cell.
    pub fn index_of(&self, pos: Position) -> (i: usize)
        requires
            self.wf(),
            self@.in_bounds(pos),
        ensures
            i == self@.index_of(pos),
            i < self@.area(),
    {
        let x: usize = pos.0 as usize;
        let y: usize = pos.1 as usize;
        proof {
            lemma_index_of(self@, pos);
            assert(0 <= y * self.width) by (nonlinear_arith);
            assert(self@.index_of(pos) == x + y * self.width);
            assert(self@.area() == self.tiles@.len());
            assert(y * self.width <= x + y * self.width < self.tiles.len() <= usize::MAX);
        }
        let row: usize = y * self.width;
        x + row
    }

    /// The blocked flag with row-major index `i`.
    pub fn cell(&self, i: usize) -> (b: bool)
        requires
            self.wf(),
            i < self@.area(),
        ensures
            b == self@.cells[i as int],
    {
        self.tiles[i]
    }

    /// Whether the cell at `pos` is impassable.
    pub fn is_blocked(&self, pos: Position) -> (b: bool)
        requires
            self.wf(),
            self@.in_bounds(pos),
        ensures
            b == self@.blocked(pos),
    {
        let i = self.index_of(pos);
        self.tiles[i]
    }

    /// Whether `pos` lies on the grid and is not blocked.
    pub fn is_passable(&self, pos: Position) -> (b: bool)
        requires
            self.wf(),
        ensures
            b == self@.passable(pos),
    {
        self.in_bounds(pos) && !self.is_blocked(pos)
    }
}

} // verus!
