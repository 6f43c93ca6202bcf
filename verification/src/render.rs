//! What a picture of a grid shows in each cell: free ground, a wall, or a
//! cell of a route laid over the grid.

use crate::grid::{lemma_index_of, GridMap, GridView, Position};
use vstd::prelude::*;

verus! {

/// What one cell of a picture shows.
#[derive(Clone, Copy, Debug, PartialEq, Eq, Structural)]
pub enum Tile {
    /// A passable cell that the route does not visit.
    Free,
    /// A blocked cell that the route does not visit.
    Wall,
    /// A cell of the route.
    Route,
}

/// The cell with row-major index `i` is one of the first `upto` cells of
/// `path`.
pub open spec fn on_route(grid: GridView, path: Seq<Position>, upto: int, i: int) -> bool {
    exists|k: int| 0 <= k < upto && #[trigger] grid.index_of(path[k]) == i
}

/// What the picture of `grid` under `path` shows in the cell with row-major
/// index `i`.
pub open spec fn tile_at(grid: GridView, path: Seq<Position>, i: int) -> Tile {
    if on_route(grid, path, path.len() as int, i) {
        Tile::Route
    } else if grid.cells[i] {
        Tile::Wall
    } else {
        Tile::Free
    }
}

/// Lays `path` over the grid and gives, in row-major order, what each cell
/// shows. An empty `path` gives the picture of the grid alone.
pub fn overlay_path(map: &GridMap, path: &Vec<Position>) -> (tiles: Vec<Tile>)
    requires
        map.wf(),
        forall|k: int| 0 <= k < path.len() ==> map@.in_bounds(#[trigger] path[k]),
    ensures
        tiles.len() == map@.area(),
        forall|i: int| 0 <= i < tiles.len() ==> #[trigger] tiles[i] == tile_at(map@, path@, i),
{
    let area: usize = map.area();
    let mut tiles: Vec<Tile> = Vec::new();
    let mut i: usize = 0;
    while i < area
        invariant
            map.wf(),
            area == map@.area(),
            i <= area,
            tiles.len() == i,
            forall|j: int|
                0 <= j < i ==> #[trigger] tiles[j] == if map@.cells[j] {
                    Tile::Wall
                } else {
                    Tile::Free
                },
        decreases area - i,
    {
        let tile = if map.cell(i) {
            Tile::Wall
        } else {
            Tile::Free
        };
        tiles.push(tile);
        i = i + 1;
    }
    let mut k: usize = 0;
    while k < path.len()
        invariant
            map.wf(),
            area == map@.area(),
            tiles.len() == area,
            k <= path.len(),
            forall|k: int| 0 <= k < path.len() ==> map@.in_bounds(#[trigger] path[k]),
            forall|j: int|
                0 <= j < area ==> #[trigger] tiles[j] == if on_route(map@, path@, k as int, j) {
                    Tile::Route
                } else if map@.cells[j] {
                    Tile::Wall
                } else {
                    Tile::Free
                },
        decreases path.len() - k,
    {
        let at: usize = map.index_of(path[k]);
        let ghost before = tiles@;
        tiles.set(at, Tile::Route);
        proof {
            assert forall|j: int| 0 <= j < area implies #[trigger] tiles[j] == if on_route(
                map@,
                path@,
                k + 1,
                j,
            ) {
                Tile::Route
            } else if map@.cells[j] {
                Tile::Wall
            } else {
                Tile::Free
            } by {
                if j == at {
                    assert(map@.index_of(path@[k as int]) == j);
                } else if on_route(map@, path@, k + 1, j) {
                    let w = choose|w: int| 0 <= w < k + 1 && #[trigger] map@.index_of(path@[w]) == j;
                    assert(w < k);
                    assert(on_route(map@, path@, k as int, j));
                } else {
                    if on_route(map@, path@, k as int, j) {
                        let w = choose|w: int| 0 <= w < k && #[trigger] map@.index_of(path@[w]) == j;
                        assert(0 <= w < k + 1 && map@.index_of(path@[w]) == j);
                    }
                }
            }
        }
        k = k + 1;
    }
    tiles
}

/// The character that stands for a tile in the text picture of a grid.
pub open spec fn glyph(tile: Tile) -> char {
    match tile {
        Tile::Free => '0',
        Tile::Wall => '#',
        Tile::Route => 'X',
    }
}

/// The character that stands for a tile in the text picture of a grid: `0`
/// for free ground, `#` for a wall, `X` for a cell of the route.
pub fn glyph_of(tile: Tile) -> (c: char)
    ensures
        c == glyph(tile),
{
    match tile {
        Tile::Free => '0',
        Tile::Wall => '#',
        Tile::Route => 'X',
    }
}

/// The colour of a tile in the pixel picture of a grid, as red, green and
/// blue.
pub open spec fn colour(tile: Tile) -> (u8, u8, u8) {
    match tile {
        Tile::Free => (255u8, 255u8, 255u8),
        Tile::Wall => (0u8, 0u8, 255u8),
        Tile::Route => (255u8, 0u8, 0u8),
    }
}

/// The colour of a tile in the pixel picture of a grid: white for free
/// ground, blue for a wall, red for a cell of the route.
pub fn colour_of(tile: Tile) -> (rgb: (u8, u8, u8))
    ensures
        rgb == colour(tile),
{
    match tile {
        Tile::Free => (255, 255, 255),
        Tile::Wall => (0, 0, 255),
        Tile::Route => (255, 0, 0),
    }
}

/// The size of the pixel picture of a grid, one pixel for each cell: its
/// width and height, or `None` where one of them does not fit the 32 bits
/// that a picture's side may have.
pub fn picture_size(map: &GridMap) -> (size: Option<(u32, u32)>)
    ensures
        size == if map@.width <= u32::MAX && map@.height <= u32::MAX {
            Some((map@.width as u32, map@.height as u32))
        } else {
            None::<(u32, u32)>
        },
{
    let width: usize = map.width();
    let height: usize = map.height();
    if width <= 0xffff_ffff && height <= 0xffff_ffff {
        Some((width as u32, height as u32))
    } else {
        None
    }
}

/// One mark of the text picture of a grid.
#[derive(Clone, Copy, Debug, PartialEq, Eq, Structural)]
pub enum Mark {
    /// What a cell shows.
    Cell(Tile),
    /// The blank that follows every cell.
    Gap,
    /// The end of a row.
    LineEnd,
}

/// The character that a mark is written as: the glyph of its tile for a
/// cell, a blank for a gap, a line feed for the end of a row.
pub open spec fn mark_char(mark: Mark) -> char {
    match mark {
        Mark::Cell(tile) => glyph(tile),
        Mark::Gap => ' ',
        Mark::LineEnd => '\n',
    }
}

/// The character that a mark is written as.
pub fn char_of(mark: Mark) -> (c: char)
    ensures
        c == mark_char(mark),
{
    match mark {
        Mark::Cell(tile) => glyph_of(tile),
        Mark::Gap => ' ',
        Mark::LineEnd => '\n',
    }
}

/// Where the mark of the cell `(x, y)` stands in the text of a grid that is
/// `width` cells wide: each row takes two marks for every cell and one for
/// its end.
pub open spec fn slot(width: int, x: int, y: int) -> int {
    y * (2 * width + 1) + 2 * x
}

/// The first `upto` cells of row `y` stand in the text, each with its blank.
spec fn row_laid(marks: Seq<Mark>, tiles: Seq<Tile>, width: int, y: int, upto: int) -> bool {
    forall|x: int|
        0 <= x < upto ==> marks[#[trigger] slot(width, x, y)] == Mark::Cell(tiles[x + y * width])
            && marks[slot(width, x, y) + 1] == Mark::Gap
}

/// The first `rows` rows stand in the text, each with its end.
spec fn rows_laid(marks: Seq<Mark>, tiles: Seq<Tile>, width: int, rows: int) -> bool {
    forall|y: int|
        0 <= y < rows ==> (#[trigger] row_laid(marks, tiles, width, y, width)) && marks[slot(
            width,
            width,
            y,
        )] == Mark::LineEnd
}

/// A row ends before the next begins.
proof fn lemma_rows_follow(width: int, a: int, b: int)
    requires
        0 <= width,
        0 <= a < b,
    ensures
        slot(width, width, a) + 1 <= slot(width, 0, b),
{
    assert((a + 1) * (2 * width + 1) <= b * (2 * width + 1)) by (nonlinear_arith)
        requires
            a + 1 <= b,
            0 <= 2 * width + 1,
    ;
    assert((a + 1) * (2 * width + 1) == a * (2 * width + 1) + 2 * width + 1) by (nonlinear_arith);
}

/// Adding a mark at the end of the text keeps the rows that are laid.
proof fn lemma_laid_kept(marks: Seq<Mark>, tiles: Seq<Tile>, width: int, x: int, y: int, added: Mark)
    requires
        0 <= width,
        0 <= y,
        0 <= x <= width,
        rows_laid(marks, tiles, width, y),
        row_laid(marks, tiles, width, y, x),
        marks.len() >= slot(width, x, y),
    ensures
        rows_laid(marks.push(added), tiles, width, y),
        row_laid(marks.push(added), tiles, width, y, x),
{
    let more = marks.push(added);
    assert forall|b: int| 0 <= b < y implies (#[trigger] row_laid(more, tiles, width, b, width)) && more[slot(
        width,
        width,
        b,
    )] == Mark::LineEnd by {
        lemma_rows_follow(width, b, y);
        assert(row_laid(marks, tiles, width, b, width));
        assert(0 <= b * (2 * width + 1)) by (nonlinear_arith)
            requires
                0 <= b,
                0 <= width,
        ;
        assert forall|a: int| 0 <= a < width implies more[#[trigger] slot(width, a, b)] == Mark::Cell(
            tiles[a + b * width],
        ) && more[slot(width, a, b) + 1] == Mark::Gap by {
            assert(marks[slot(width, a, b)] == Mark::Cell(tiles[a + b * width]));
        }
    }
    assert(0 <= y * (2 * width + 1)) by (nonlinear_arith)
        requires
            0 <= y,
            0 <= width,
    ;
    assert forall|a: int| 0 <= a < x implies more[#[trigger] slot(width, a, y)] == Mark::Cell(
        tiles[a + y * width],
    ) && more[slot(width, a, y) + 1] == Mark::Gap by {
        assert(marks[slot(width, a, y)] == Mark::Cell(tiles[a + y * width]));
    }
}

/// A row that is laid and ended counts among the rows that are laid.
proof fn lemma_row_ends(marks: Seq<Mark>, tiles: Seq<Tile>, width: int, y: int)
    requires
        0 <= y,
        rows_laid(marks, tiles, width, y),
        row_laid(marks, tiles, width, y, width),
        marks[slot(width, width, y)] == Mark::LineEnd,
    ensures
        rows_laid(marks, tiles, width, y + 1),
{
    assert forall|b: int| 0 <= b < y + 1 implies (#[trigger] row_laid(marks, tiles, width, b, width))
        && marks[slot(width, width, b)] == Mark::LineEnd by {
        if b < y {
            assert(row_laid(marks, tiles, width, b, width));
        }
    }
}

/// Lays the tiles of a grid out as a text: row by row, each cell followed
/// by a blank, each row by a line end.
pub fn layout(map: &GridMap, tiles: &Vec<Tile>) -> (marks: Vec<Mark>)
    requires
        map.wf(),
        tiles.len() == map@.area(),
    ensures
        marks.len() == map@.height * (2 * map@.width + 1),
        forall|x: int, y: int|
            0 <= x < map@.width && 0 <= y < map@.height ==> marks[#[trigger] slot(
                map@.width as int,
                x,
                y,
            )] == Mark::Cell(tiles[x + y * map@.width]) && marks[slot(map@.width as int, x, y) + 1]
                == Mark::Gap,
        forall|y: int|
            0 <= y < map@.height ==> marks[#[trigger] slot(map@.width as int, map@.width as int, y)]
                == Mark::LineEnd,
{
    let width: usize = map.width();
    let height: usize = map.height();
    let ghost w = width as int;
    let mut marks: Vec<Mark> = Vec::new();
    let mut y: usize = 0;
    while y < height
        invariant
            y <= height,
            w == width,
            map@.width == width,
            map@.height == height,
            tiles.len() == width * height,
            marks.len() == slot(w, 0, y as int),
            rows_laid(marks@, tiles@, w, y as int),
        decreases height - y,
    {
        let mut x: usize = 0;
        while x < width
            invariant
                x <= width,
                y < height,
                w == width,
                tiles.len() == width * height,
                marks.len() == slot(w, x as int, y as int),
                rows_laid(marks@, tiles@, w, y as int),
                row_laid(marks@, tiles@, w, y as int, x as int),
            decreases width - x,
        {
            proof {
                assert(x + y * width < width * height) by (nonlinear_arith)
                    requires
                        0 <= x < width,
                        0 <= y < height,
                ;
                assert(0 <= y * width) by (nonlinear_arith)
                    requires
                        0 <= y,
                        0 <= width,
                ;
                assert(tiles.len() <= usize::MAX);
            }
            let row: usize = y * width;
            let tile: Tile = tiles[x + row];
            proof {
                lemma_laid_kept(marks@, tiles@, w, x as int, y as int, Mark::Cell(tile));
            }
            marks.push(Mark::Cell(tile));
            proof {
                lemma_laid_kept(marks@, tiles@, w, x as int, y as int, Mark::Gap);
            }
            marks.push(Mark::Gap);
            proof {
                assert(row_laid(marks@, tiles@, w, y as int, x + 1)) by {
                    assert forall|a: int| 0 <= a < x + 1 implies marks@[#[trigger] slot(w, a, y as int)]
                        == Mark::Cell(tiles@[a + y * w]) && marks@[slot(w, a, y as int) + 1]
                        == Mark::Gap by {
                        if a < x {
                            assert(marks@[slot(w, a, y as int)] == Mark::Cell(tiles@[a + y * w]));
                        }
                    }
                }
            }
            x = x + 1;
        }
        let ghost full = marks@;
        proof {
            assert(x == width);
            lemma_laid_kept(full, tiles@, w, w, y as int, Mark::LineEnd);
        }
        marks.push(Mark::LineEnd);
        proof {
            assert(marks@ == full.push(Mark::LineEnd));
            assert((y + 1) * (2 * w + 1) == y * (2 * w + 1) + 2 * w + 1) by (nonlinear_arith);
            assert(full.len() == slot(w, w, y as int));
            assert(marks@[slot(w, w, y as int)] == Mark::LineEnd);
            assert(row_laid(marks@, tiles@, w, y as int, w));
            assert(rows_laid(marks@, tiles@, w, y as int));
            lemma_row_ends(marks@, tiles@, w, y as int);
        }
        y = y + 1;
    }
    proof {
        assert forall|x: int, y: int| 0 <= x < map@.width && 0 <= y < map@.height implies marks@[
        #[trigger] slot(map@.width as int, x, y)] == Mark::Cell(tiles@[x + y * map@.width]) && marks@[
        slot(map@.width as int, x, y) + 1] == Mark::Gap by {
            assert(row_laid(marks@, tiles@, w, y, w));
        }
        assert forall|y: int| 0 <= y < map@.height implies marks@[#[trigger] slot(
            map@.width as int,
            map@.width as int,
            y,
        )] == Mark::LineEnd by {
            assert(row_laid(marks@, tiles@, w, y, w));
        }
    }
    marks
}

} // verus!
