use vstd::prelude::*;
use vstd::string::*;

use crate::parser::{decimal, decimal_string};

verus! {

/// Tile code of a wall.
pub const WALL: u8 = 1;

/// A grid of tile codes placed in the world.
///
/// World coordinates are integers; a tile covers `tile_size` world units on
/// each axis and the grid's top-left corner sits at the origin `(x, y)`.
pub struct TileMap {
    name: String,
    width: usize,
    height: usize,
    tiles: Vec<u8>,
    x: i64,
    y: i64,
    tile_size: u32,
}

/// The mathematical content of a [`TileMap`].
pub struct MapModel {
    pub name: Seq<char>,
    pub width: nat,
    pub height: nat,
    pub tiles: Seq<u8>,
    pub x: int,
    pub y: int,
    pub tile_size: nat,
}

impl MapModel {
    /// Row-major position of the cell `(cx, cy)`.
    pub open spec fn index(self, cx: int, cy: int) -> int {
        cy * self.width + cx
    }

    pub open spec fn inside(self, cx: int, cy: int) -> bool {
        0 <= cx < self.width && 0 <= cy < self.height
    }

    pub open spec fn tile(self, cx: int, cy: int) -> u8 {
        self.tiles[self.index(cx, cy)]
    }

    /// The cell that holds the world point `(wx, wy)`, if it lies on the grid.
    pub open spec fn cell_of(self, wx: int, wy: int) -> Option<(int, int)> {
        let rx = wx - self.x;
        let ry = wy - self.y;
        if self.tile_size == 0 || rx < 0 || ry < 0 {
            None
        } else {
            let cx = rx / (self.tile_size as int);
            let cy = ry / (self.tile_size as int);
            if self.inside(cx, cy) {
                Some((cx, cy))
            } else {
                None
            }
        }
    }
}

/// Every cell of a grid of `width` columns lies inside its tile sequence.
pub proof fn lemma_index_in_grid(width: nat, height: nat, cx: int, cy: int)
    requires
        0 <= cx < width,
        0 <= cy < height,
    ensures
        0 <= cy * width + cx < width * height,
{
    assert(cy * width + cx < width * height) by (nonlinear_arith)
        requires
            0 <= cx < width,
            0 <= cy < height,
    ;
    assert(0 <= cy * width) by (nonlinear_arith)
        requires
            0 <= cy,
    ;
}

/// The first `n` tiles of row `y`, each in decimal and followed by a space.
pub open spec fn row_text(m: MapModel, y: int, n: int) -> Seq<char>
    decreases n,
{
    if n <= 0 {
        seq![]
    } else {
        row_text(m, y, n - 1) + decimal(m.tile(n - 1, y) as nat) + " "@
    }
}

/// The first `rows` rows of the grid, one line each.
pub open spec fn grid_text(m: MapModel, rows: int) -> Seq<char>
    decreases rows,
{
    if rows <= 0 {
        seq![]
    } else {
        grid_text(m, rows - 1) + row_text(m, rows - 1, m.width as int) + "\n"@
    }
}

/// The name and size of a map on one line, then its grid.
pub open spec fn map_text(m: MapModel) -> Seq<char> {
    "name: "@ + m.name + ", width: "@ + decimal(m.width) + ", height: "@ + decimal(m.height) + "\n"@
        + grid_text(m, m.height as int)
}

impl View for TileMap {
    type V = MapModel;

    closed spec fn view(&self) -> MapModel {
        MapModel {
            name: self.name@,
            width: self.width as nat,
            height: self.height as nat,
            tiles: self.tiles@,
            x: self.x as int,
            y: self.y as int,
            tile_size: self.tile_size as nat,
        }
    }
}

impl TileMap {
    /// The tile sequence holds exactly one code per cell.
    pub open spec fn wf(&self) -> bool {
        self@.tiles.len() == self@.width * self@.height
    }

    pub fn new(name: String, width: usize, height: usize, tile_size: u32, tiles: Vec<u8>) -> (m: TileMap)
        requires
            tiles@.len() == width * height,
        ensures
            m.wf(),
            m@ == (MapModel {
                name: name@,
                width: width as nat,
                height: height as nat,
                tiles: tiles@,
                x: 0,
                y: 0,
                tile_size: tile_size as nat,
            }),
    {
        TileMap { name, width, height, tiles, x: 0, y: 0, tile_size }
    }

    /// Moves the grid's origin by `(x, y)`.
    pub fn set_position(&mut self, x: i64, y: i64)
        requires
            i64::MIN <= old(self)@.x + x <= i64::MAX,
            i64::MIN <= old(self)@.y + y <= i64::MAX,
        ensures
            final(self)@ == (MapModel { x: old(self)@.x + x, y: old(self)@.y + y, ..old(self)@ }),
    {
        self.x = self.x + x;
        self.y = self.y + y;
    }

    /// Sets the tile size to the largest whole size at which the grid fits
    /// into a window of the given size.
    pub fn auto_tile_size(&mut self, window_width: u32, window_height: u32)
        requires
            old(self)@.width > 0,
            old(self)@.height > 0,
        ensures
            final(self)@ == (MapModel {
                tile_size: vstd::math::min(
                    window_width as int / old(self)@.width as int,
                    window_height as int / old(self)@.height as int,
                ) as nat,
                ..old(self)@
            }),
    {
        let w = window_width as usize / self.width;
        let h = window_height as usize / self.height;
        let size = if w < h { w } else { h };
        self.tile_size = size as u32;
    }

    pub fn get_name(&self) -> (r: &String)
        ensures
            r@ == self@.name,
    {
        &self.name
    }

    pub fn get_width(&self) -> (r: usize)
        ensures
            r == self@.width,
    {
        self.width
    }

    pub fn get_height(&self) -> (r: usize)
        ensures
            r == self@.height,
    {
        self.height
    }

    pub fn get_tile_size(&self) -> (r: u32)
        ensures
            r == self@.tile_size,
    {
        self.tile_size
    }

    pub fn get_origin(&self) -> (r: (i64, i64))
        ensures
            r.0 == self@.x,
            r.1 == self@.y,
    {
        (self.x, self.y)
    }

    /// The code of the cell in column `x` and row `y`.
    pub fn tile_at(&self, x: usize, y: usize) -> (r: u8)
        requires
            self.wf(),
            self@.inside(x as int, y as int),
        ensures
            r == self@.tile(x as int, y as int),
    {
        let len = self.tiles.len();
        proof {
            lemma_index_in_grid(self@.width, self@.height, x as int, y as int);
            assert(y * self.width <= y * self.width + x < len);
        }
        self.tiles[y * self.width + x]
    }

    /// The cell that holds the world point `(x, y)`, or `None` off the grid.
    pub fn to_map_coordinates(&self, x: i64, y: i64) -> (r: Option<(usize, usize)>)
        ensures
            r.is_some() == self@.cell_of(x as int, y as int).is_some(),
            r matches Some(c) ==> self@.cell_of(x as int, y as int) == Some((c.0 as int, c.1 as int)),
    {
        let rx: i128 = x as i128 - self.x as i128;
        let ry: i128 = y as i128 - self.y as i128;
        if self.tile_size == 0 || rx < 0 || ry < 0 {
            return None;
        }
        let cx: i128 = rx / self.tile_size as i128;
        let cy: i128 = ry / self.tile_size as i128;
        if cx >= self.width as i128 || cy >= self.height as i128 {
            return None;
        }
        Some((cx as usize, cy as usize))
    }

    /// The map as text: its name and size, then each row of tile codes.
    pub fn describe(&self) -> (r: String)
        requires
            self.wf(),
        ensures
            r@ == map_text(self@),
    {
        let mut s = String::from_str("name: ");
        s.append(self.name.as_str());
        s.append(", width: ");
        let w = decimal_string(self.width);
        s.append(w.as_str());
        s.append(", height: ");
        let h = decimal_string(self.height);
        s.append(h.as_str());
        s.append("\n");
        let ghost head = s@;
        let mut y: usize = 0;
        while y < self.height
            invariant
                self.wf(),
                y <= self.height,
                head == "name: "@ + self@.name + ", width: "@ + decimal(self@.width) + ", height: "@
                    + decimal(self@.height) + "\n"@,
                s@ == head + grid_text(self@, y as int),
            decreases self.height - y,
        {
            let mut x: usize = 0;
            while x < self.width
                invariant
                    self.wf(),
                    x <= self.width,
                    y < self.height,
                    s@ == head + grid_text(self@, y as int) + row_text(self@, y as int, x as int),
                decreases self.width - x,
            {
                let t = decimal_string(self.tile_at(x, y) as usize);
                s.append(t.as_str());
                s.append(" ");
                proof {
                    assert(s@ =~= head + grid_text(self@, y as int) + row_text(self@, y as int, x + 1));
                }
                x = x + 1;
            }
            s.append("\n");
            proof {
                assert(s@ =~= head + grid_text(self@, y + 1));
            }
            y = y + 1;
        }
        s
    }

    /// Whether the world point `(x, y)` lies on the grid.
    pub fn in_map(&self, x: i64, y: i64) -> (r: bool)
        ensures
            r == self@.cell_of(x as int, y as int).is_some(),
    {
        self.to_map_coordinates(x, y).is_some()
    }
}

} // verus!
