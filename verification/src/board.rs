//! The fixed 8x8 board coloring.
//!
//! The grid of tile colors never changes during a game; every color appears
//! exactly once in the back row (y = 0) and once in the top row (y = 7), so a
//! landing square's color always names exactly one piece on each side.

use vstd::prelude::*;

use crate::colors::Colors;

verus! {

/// The color of the tile at column `x`, row `y` of the fixed coloring.
pub open spec fn tile_color(x: int, y: int) -> Colors {
    if x == 0 {
        if y == 0 { Colors::Orange }
        else if y == 1 { Colors::Red }
        else if y == 2 { Colors::Green }
        else if y == 3 { Colors::Pink }
        else if y == 4 { Colors::Yellow }
        else if y == 5 { Colors::Blue }
        else if y == 6 { Colors::Purple }
        else { Colors::Brown }
    } else if x == 1 {
        if y == 0 { Colors::Blue }
        else if y == 1 { Colors::Orange }
        else if y == 2 { Colors::Pink }
        else if y == 3 { Colors::Purple }
        else if y == 4 { Colors::Red }
        else if y == 5 { Colors::Yellow }
        else if y == 6 { Colors::Brown }
        else { Colors::Green }
    } else if x == 2 {
        if y == 0 { Colors::Purple }
        else if y == 1 { Colors::Pink }
        else if y == 2 { Colors::Orange }
        else if y == 3 { Colors::Blue }
        else if y == 4 { Colors::Green }
        else if y == 5 { Colors::Brown }
        else if y == 6 { Colors::Yellow }
        else { Colors::Red }
    } else if x == 3 {
        if y == 0 { Colors::Pink }
        else if y == 1 { Colors::Green }
        else if y == 2 { Colors::Red }
        else if y == 3 { Colors::Orange }
        else if y == 4 { Colors::Brown }
        else if y == 5 { Colors::Purple }
        else if y == 6 { Colors::Blue }
        else { Colors::Yellow }
    } else if x == 4 {
        if y == 0 { Colors::Yellow }
        else if y == 1 { Colors::Blue }
        else if y == 2 { Colors::Purple }
        else if y == 3 { Colors::Brown }
        else if y == 4 { Colors::Orange }
        else if y == 5 { Colors::Red }
        else if y == 6 { Colors::Green }
        else { Colors::Pink }
    } else if x == 5 {
        if y == 0 { Colors::Red }
        else if y == 1 { Colors::Yellow }
        else if y == 2 { Colors::Brown }
        else if y == 3 { Colors::Green }
        else if y == 4 { Colors::Blue }
        else if y == 5 { Colors::Orange }
        else if y == 6 { Colors::Pink }
        else { Colors::Purple }
    } else if x == 6 {
        if y == 0 { Colors::Green }
        else if y == 1 { Colors::Brown }
        else if y == 2 { Colors::Yellow }
        else if y == 3 { Colors::Red }
        else if y == 4 { Colors::Purple }
        else if y == 5 { Colors::Pink }
        else if y == 6 { Colors::Orange }
        else { Colors::Blue }
    } else {
        if y == 0 { Colors::Brown }
        else if y == 1 { Colors::Purple }
        else if y == 2 { Colors::Blue }
        else if y == 3 { Colors::Yellow }
        else if y == 4 { Colors::Pink }
        else if y == 5 { Colors::Green }
        else if y == 6 { Colors::Red }
        else { Colors::Orange }
    }
}

/// The immutable 8x8 grid of tile colors, indexed `[x][y]`.
pub struct Board {
    tiles: [[Colors; 8]; 8],
}

impl Board {
    /// The stored grid agrees with `tile_color` everywhere.
    pub closed spec fn wf(&self) -> bool {
        forall|x: int, y: int|
            0 <= x < 8 && 0 <= y < 8 ==> self.tiles@[x]@[y] == tile_color(x, y)
    }

    /// Read-only access to the whole grid.
    pub fn tiles(&self) -> (t: &[[Colors; 8]; 8])
        requires
            self.wf(),
        ensures
            forall|x: int, y: int| 0 <= x < 8 && 0 <= y < 8 ==> t@[x]@[y] == tile_color(x, y),
    {
        &self.tiles
    }

    /// The color of cell `(x, y)`; callers must stay on the board.
    pub fn color_at(&self, x: usize, y: usize) -> (c: Colors)
        requires
            self.wf(),
            x < 8,
            y < 8,
        ensures
            c == tile_color(x as int, y as int),
    {
        self.tiles[x][y]
    }
}

impl Default for Board {
    fn default() -> (b: Board)
        ensures
            b.wf(),
    {
        let tiles: [[Colors; 8]; 8] = [
        [
            Colors::Orange,
            Colors::Red,
            Colors::Green,
            Colors::Pink,
            Colors::Yellow,
            Colors::Blue,
            Colors::Purple,
            Colors::Brown,
        ],
        [
            Colors::Blue,
            Colors::Orange,
            Colors::Pink,
            Colors::Purple,
            Colors::Red,
            Colors::Yellow,
            Colors::Brown,
            Colors::Green,
        ],
        [
            Colors::Purple,
            Colors::Pink,
            Colors::Orange,
            Colors::Blue,
            Colors::Green,
            Colors::Brown,
            Colors::Yellow,
            Colors::Red,
        ],
        [
            Colors::Pink,
            Colors::Green,
            Colors::Red,
            Colors::Orange,
            Colors::Brown,
            Colors::Purple,
            Colors::Blue,
            Colors::Yellow,
        ],
        [
            Colors::Yellow,
            Colors::Blue,
            Colors::Purple,
            Colors::Brown,
            Colors::Orange,
            Colors::Red,
            Colors::Green,
            Colors::Pink,
        ],
        [
            Colors::Red,
            Colors::Yellow,
            Colors::Brown,
            Colors::Green,
            Colors::Blue,
            Colors::Orange,
            Colors::Pink,
            Colors::Purple,
        ],
        [
            Colors::Green,
            Colors::Brown,
            Colors::Yellow,
            Colors::Red,
            Colors::Purple,
            Colors::Pink,
            Colors::Orange,
            Colors::Blue,
        ],
        [
            Colors::Brown,
            Colors::Purple,
            Colors::Blue,
            Colors::Yellow,
            Colors::Pink,
            Colors::Green,
            Colors::Red,
            Colors::Orange,
        ],
        ];
        Board { tiles }
    }
}

/// Each color appears at most once among the back-row tiles (y = 0) and at
/// most once among the top-row tiles (y = 7), so a row color determines its
/// column.
pub proof fn lemma_edge_row_colors_unique(x1: int, x2: int, y: int)
    requires
        0 <= x1 < 8,
        0 <= x2 < 8,
        y == 0 || y == 7,
        tile_color(x1, y) == tile_color(x2, y),
    ensures
        x1 == x2,
{
}

/// Every color appears on some back-row tile and on some top-row tile; with
/// `lemma_edge_row_colors_unique`, exactly once on each.
pub proof fn lemma_edge_row_has_color(c: Colors, y: int)
    requires
        y == 0 || y == 7,
    ensures
        exists|x: int| 0 <= x < 8 && (#[trigger] tile_color(x, y)) == c,
{
    if y == 0 {
        match c {
            Colors::Orange => assert(tile_color(0, 0) == c),
            Colors::Blue => assert(tile_color(1, 0) == c),
            Colors::Purple => assert(tile_color(2, 0) == c),
            Colors::Pink => assert(tile_color(3, 0) == c),
            Colors::Yellow => assert(tile_color(4, 0) == c),
            Colors::Red => assert(tile_color(5, 0) == c),
            Colors::Green => assert(tile_color(6, 0) == c),
            Colors::Brown => assert(tile_color(7, 0) == c),
        }
    } else {
        match c {
            Colors::Brown => assert(tile_color(0, 7) == c),
            Colors::Green => assert(tile_color(1, 7) == c),
            Colors::Red => assert(tile_color(2, 7) == c),
            Colors::Yellow => assert(tile_color(3, 7) == c),
            Colors::Pink => assert(tile_color(4, 7) == c),
            Colors::Purple => assert(tile_color(5, 7) == c),
            Colors::Blue => assert(tile_color(6, 7) == c),
            Colors::Orange => assert(tile_color(7, 7) == c),
        }
    }
}

} // verus!
