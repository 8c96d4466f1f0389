use vstd::prelude::*;
use crate::coords::Coordinates;

verus! {

/// One cell of the grid: either a wall or open floor.
#[derive(Clone, Copy, Debug, PartialEq, Eq, Structural)]
pub enum TileType {
    Wall,
    Floor,
}

impl TileType {
    /// Whether this tile kind statically obstructs motion.
    pub fn blocks_motion(&self) -> (r: bool)
        ensures
            r == (*self is Wall),
    {
        match self {
            TileType::Wall => true,
            TileType::Floor => false,
        }
    }

    /// Whether this tile kind statically obstructs sight.
    pub fn blocks_visibility(&self) -> (r: bool)
        ensures
            r == (*self is Wall),
    {
        match self {
            TileType::Wall => true,
            TileType::Floor => false,
        }
    }
}

/// An axis-aligned rectangular region of the grid, typically a room.
/// Both corners are inclusive.
#[derive(Clone, Debug)]
pub struct Area {
    pub x1: usize,
    pub y1: usize,
    pub x2: usize,
    pub y2: usize,
    pub description: Option<String>,
}

impl Area {
    /// Whether the rectangle contains the tile under the given position.
    pub open spec fn contains_spec(self, tx: int, ty: int) -> bool {
        &&& self.x1 <= tx <= self.x2
        &&& self.y1 <= ty <= self.y2
    }

    /// Whether this area contains the tile under `point`.
    pub fn contains(&self, point: &Coordinates) -> (r: bool)
        requires
            0 <= point.x < 4096 * 1000,
            0 <= point.y < 4096 * 1000,
        ensures
            r == self.contains_spec(point.tile_x_spec(), point.tile_y_spec()),
    {
        let x = point.tile_x() as usize;
        let y = point.tile_y() as usize;
        x >= self.x1 && x <= self.x2 && y >= self.y1 && y <= self.y2
    }

    /// The central tile of the rectangle.
    pub fn center(&self) -> (r: (usize, usize))
        requires
            self.x1 <= self.x2 <= 4096,
            self.y1 <= self.y2 <= 4096,
        ensures
            r.0 == (self.x1 + self.x2) / 2,
            r.1 == (self.y1 + self.y2) / 2,
    {
        ((self.x1 + self.x2) / 2, (self.y1 + self.y2) / 2)
    }
}

/// The list of rooms carried by a grid.
#[derive(Clone, Debug)]
pub struct Areas(pub Vec<Area>);

impl Areas {
    /// The first room that contains the tile under `point`, if any:
    /// the room-scoped query behind "which room is this point in".
    pub fn containing(&self, point: &Coordinates) -> (r: Option<usize>)
        requires
            0 <= point.x < 4096 * 1000,
            0 <= point.y < 4096 * 1000,
        ensures
            match r {
                Some(k) => {
                    &&& k < self.0@.len()
                    &&& self.0@[k as int].contains_spec(point.tile_x_spec(), point.tile_y_spec())
                    &&& forall |j: int| 0 <= j < k
                        ==> !(#[trigger] self.0@[j]).contains_spec(
                            point.tile_x_spec(), point.tile_y_spec())
                }
                None => forall |j: int| 0 <= j < self.0@.len()
                    ==> !(#[trigger] self.0@[j]).contains_spec(
                        point.tile_x_spec(), point.tile_y_spec()),
            },
    {
        let mut k: usize = 0;
        while k < self.0.len()
            invariant
                0 <= point.x < 4096 * 1000,
                0 <= point.y < 4096 * 1000,
                k <= self.0@.len(),
                forall |j: int| 0 <= j < k
                    ==> !(#[trigger] self.0@[j]).contains_spec(
                        point.tile_x_spec(), point.tile_y_spec()),
            decreases self.0@.len() - k,
        {
            if self.0[k].contains(point) {
                return Some(k);
            }
            k = k + 1;
        }
        None
    }
}

/// An immutable-per-level 2D tile array with its points of interest.
/// Tiles are stored row-major: index = y * width + x.
#[derive(Debug)]
pub struct Grid {
    pub width: usize,
    pub height: usize,
    pub tiles: Vec<TileType>,
    pub start_point: Option<(usize, usize)>,
    pub exit_point: Option<(usize, usize)>,
    pub rooms: Vec<Area>,
}

/// Cost of a cardinal step between adjacent tiles, in hundredths of a tile.
pub const CARDINAL_COST: u32 = 100;

/// Cost of a diagonal step between adjacent tiles, in hundredths of a tile.
pub const DIAGONAL_COST: u32 = 145;

impl Grid {
    /// Dimensions are positive and bounded, and the tile array matches them.
    pub open spec fn wf(self) -> bool {
        &&& 1 <= self.width <= 4096
        &&& 1 <= self.height <= 4096
        &&& self.tiles@.len() == self.width * self.height
    }

    pub open spec fn count_spec(self) -> int {
        self.width * self.height
    }

    pub open spec fn in_bounds(self, x: int, y: int) -> bool {
        &&& 0 <= x < self.width
        &&& 0 <= y < self.height
    }

    pub open spec fn index_of(self, x: int, y: int) -> int {
        y * self.width + x
    }

    pub open spec fn tile_at(self, x: int, y: int) -> TileType {
        self.tiles@[self.index_of(x, y)]
    }

    /// A tile an agent can stand on: in bounds and not a wall.
    pub open spec fn walkable(self, x: int, y: int) -> bool {
        &&& self.in_bounds(x, y)
        &&& self.tile_at(x, y) is Floor
    }

    /// A legal move between two cells: the target is an adjacent walkable
    /// tile, and a diagonal move may not cut a wall corner.
    pub open spec fn step_ok(self, x1: int, y1: int, x2: int, y2: int) -> bool {
        &&& self.walkable(x2, y2)
        &&& (x1 != x2 || y1 != y2)
        &&& -1 <= x2 - x1 <= 1
        &&& -1 <= y2 - y1 <= 1
        &&& ((x1 != x2 && y1 != y2) ==> self.walkable(x1, y2) && self.walkable(x2, y1))
    }

    /// Cost of a legal step, in hundredths of a tile.
    pub open spec fn step_cost(x1: int, y1: int, x2: int, y2: int) -> int {
        if x1 != x2 && y1 != y2 {
            DIAGONAL_COST as int
        } else {
            CARDINAL_COST as int
        }
    }

    pub fn new(
        width: usize,
        height: usize,
        tiles: Vec<TileType>,
        start_point: Option<(usize, usize)>,
        exit_point: Option<(usize, usize)>,
        rooms: Vec<Area>,
    ) -> (r: Grid)
        requires
            1 <= width <= 4096,
            1 <= height <= 4096,
            tiles@.len() == width * height,
        ensures
            r.wf(),
            r.width == width,
            r.height == height,
            r.tiles@ == tiles@,
            r.start_point == start_point,
            r.exit_point == exit_point,
            r.rooms == rooms,
    {
        Grid { width, height, tiles, start_point, exit_point, rooms }
    }

    pub fn width(&self) -> (r: usize)
        ensures
            r == self.width,
    {
        self.width
    }

    pub fn height(&self) -> (r: usize)
        ensures
            r == self.height,
    {
        self.height
    }

    /// Number of tiles in the grid.
    pub fn count(&self) -> (r: usize)
        requires
            self.wf(),
        ensures
            r == self.count_spec(),
    {
        proof {
            lemma_index_in_range(self.width as int, self.height as int, 0, 0);
        }
        self.width * self.height
    }

    pub fn start(&self) -> (r: Option<(usize, usize)>)
        ensures
            r == self.start_point,
    {
        self.start_point
    }

    pub fn exit(&self) -> (r: Option<(usize, usize)>)
        ensures
            r == self.exit_point,
    {
        self.exit_point
    }

    /// The tile kind at a cell.
    pub fn at(&self, x: usize, y: usize) -> (r: TileType)
        requires
            self.wf(),
            self.in_bounds(x as int, y as int),
        ensures
            r == self.tile_at(x as int, y as int),
    {
        proof {
            lemma_index_in_range(self.width as int, self.height as int, x as int, y as int);
        }
        self.tiles[y * self.width + x]
    }

    /// Replace the tile kind at a cell. Any blocking bitmap derived from
    /// the edited tile must be recomputed by the caller.
    pub fn set_tile(&mut self, x: usize, y: usize, tile: TileType)
        requires
            old(self).wf(),
            old(self).in_bounds(x as int, y as int),
        ensures
            final(self).wf(),
            final(self).width == old(self).width,
            final(self).height == old(self).height,
            final(self).start_point == old(self).start_point,
            final(self).exit_point == old(self).exit_point,
            final(self).rooms == old(self).rooms,
            final(self).tiles@ == old(self).tiles@.update(old(self).index_of(x as int, y as int), tile),
    {
        proof {
            lemma_index_in_range(self.width as int, self.height as int, x as int, y as int);
        }
        let idx = y * self.width + x;
        self.tiles.set(idx, tile);
    }

    /// The legal moves out of a cell: every adjacent walkable tile,
    /// with its step cost. Diagonal moves never cut a wall corner.
    pub fn exits_from(&self, x: usize, y: usize) -> (r: Vec<(usize, usize, u32)>)
        requires
            self.wf(),
            self.in_bounds(x as int, y as int),
        ensures
            forall |k: int| 0 <= k < r@.len() ==> {
                &&& (#[trigger] r@[k]).2 == Grid::step_cost(x as int, y as int, r@[k].0 as int, r@[k].1 as int)
                &&& self.step_ok(x as int, y as int, r@[k].0 as int, r@[k].1 as int)
            },
            forall |x2: int, y2: int| #[trigger] self.step_ok(x as int, y as int, x2, y2)
                ==> r@.contains(((x2 as usize, y2 as usize, Grid::step_cost(x as int, y as int, x2, y2) as u32))),
    {
        let mut r: Vec<(usize, usize, u32)> = Vec::new();
        // Cardinal neighbours.
        if x > 0 && self.is_walkable(x - 1, y) {
            r.push((x - 1, y, CARDINAL_COST));
        }
        if self.is_walkable(x + 1, y) {
            r.push((x + 1, y, CARDINAL_COST));
        }
        if y > 0 && self.is_walkable(x, y - 1) {
            r.push((x, y - 1, CARDINAL_COST));
        }
        if self.is_walkable(x, y + 1) {
            r.push((x, y + 1, CARDINAL_COST));
        }
        // Diagonal neighbours, each gated on both adjacent cardinals.
        if x > 0 && y > 0 && self.is_walkable(x - 1, y - 1)
            && self.is_walkable(x - 1, y) && self.is_walkable(x, y - 1) {
            r.push((x - 1, y - 1, DIAGONAL_COST));
        }
        if y > 0 && self.is_walkable(x + 1, y - 1)
            && self.is_walkable(x + 1, y) && self.is_walkable(x, y - 1) {
            r.push((x + 1, y - 1, DIAGONAL_COST));
        }
        if x > 0 && self.is_walkable(x - 1, y + 1)
            && self.is_walkable(x - 1, y) && self.is_walkable(x, y + 1) {
            r.push((x - 1, y + 1, DIAGONAL_COST));
        }
        if self.is_walkable(x + 1, y + 1)
            && self.is_walkable(x + 1, y) && self.is_walkable(x, y + 1) {
            r.push((x + 1, y + 1, DIAGONAL_COST));
        }
        proof {
            broadcast use vstd::seq_lib::group_seq_properties;
            assert forall |x2: int, y2: int| #[trigger] self.step_ok(x as int, y as int, x2, y2)
                implies r@.contains(((x2 as usize, y2 as usize, Grid::step_cost(x as int, y as int, x2, y2) as u32))) by {
                let xi = x as int;
                let yi = y as int;
                assert(x2 == xi - 1 || x2 == xi || x2 == xi + 1);
                assert(y2 == yi - 1 || y2 == yi || y2 == yi + 1);
            }
        }
        r
    }

    /// Whether the tile under a cell is walkable.
    pub fn is_walkable(&self, x: usize, y: usize) -> (r: bool)
        requires
            self.wf(),
        ensures
            r == self.walkable(x as int, y as int),
    {
        if x < self.width && y < self.height {
            proof {
                lemma_index_in_range(self.width as int, self.height as int, x as int, y as int);
            }
            match self.tiles[y * self.width + x] {
                TileType::Floor => true,
                TileType::Wall => false,
            }
        } else {
            false
        }
    }
}

/// A row-major cell index is within the tile array, and both fit well
/// below the machine word size for bounded grids.
pub proof fn lemma_index_in_range(width: int, height: int, x: int, y: int)
    requires
        0 < width <= 4096,
        0 < height <= 4096,
        0 <= x < width,
        0 <= y < height,
    ensures
        0 <= y * width + x < width * height,
        width * height <= 16777216,
{
    assert(y * width + x < width * height) by (nonlinear_arith)
        requires 0 < width && 0 <= x < width && 0 <= y <= height - 1,
    ;
    assert(0 <= y * width) by (nonlinear_arith)
        requires 0 <= y && 0 < width,
    ;
    assert(width * height <= 16777216) by (nonlinear_arith)
        requires 0 < width <= 4096 && 0 < height <= 4096,
    ;
}

/// A vector holding `n` copies of one value.
pub fn filled<T: Copy>(val: T, n: usize) -> (r: Vec<T>)
    ensures
        r@.len() == n,
        forall |i: int| 0 <= i < n ==> r@[i] == val,
{
    let mut r: Vec<T> = Vec::new();
    let mut i: usize = 0;
    while i < n
        invariant
            i <= n,
            r@.len() == i,
            forall |j: int| 0 <= j < i ==> r@[j] == val,
        decreases n - i,
    {
        r.push(val);
        i = i + 1;
    }
    r
}

/// Distinct in-bounds cells have distinct row-major indices.
pub proof fn lemma_index_injective(width: int, height: int, x1: int, y1: int, x2: int, y2: int)
    requires
        0 < width,
        0 < height,
        0 <= x1 < width,
        0 <= y1 < height,
        0 <= x2 < width,
        0 <= y2 < height,
        y1 * width + x1 == y2 * width + x2,
    ensures
        x1 == x2 && y1 == y2,
{
    assert(x1 == x2 && y1 == y2) by (nonlinear_arith)
        requires
            0 < width,
            0 <= x1 < width,
            0 <= x2 < width,
            y1 * width + x1 == y2 * width + x2,
    ;
}

} // verus!
