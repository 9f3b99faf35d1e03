//! The grid of tiles.

use vstd::prelude::*;
use crate::fixed::{dist_sq, distance_squared, half, half_of, ONE};
use crate::hex::{
    center_x_of, center_y_of, coords, hex_distance, is_tile, lemma_neighbours_are_tiles,
    lemma_tile_neighbours_fit, neighbour, neighbours, open_directions, Hex, HexType, QUARTER_RATIO,
};

verus! {

/// Base data structure of a generated map.
#[derive(Clone, Debug)]
pub struct HexMap {
    /// Number of tiles in a row.
    pub size_x: u32,
    /// Number of rows.
    pub size_y: u32,
    /// The tiles, row by row from the top, each row from left to right.
    pub field: Vec<Hex>,
    /// Width of the map in pixel space, in millionths of a tile width.
    pub absolute_size_x: i64,
    /// Height of the map in pixel space, in millionths of a tile width.
    pub absolute_size_y: i64,
}

/// A coordinate pair or an index that names no tile of the grid.
#[derive(Clone, Copy, Debug, PartialEq, Eq, Structural)]
pub struct IndexOutOfRange;

/// Position of the tile `(x, y)` in the tile storage.
pub open spec fn index_of(x: int, y: int, size_x: int) -> int {
    y * size_x + x + half(y)
}

/// Coordinates of the tile stored at position `i`.
pub open spec fn coords_of(i: int, size_x: int) -> (int, int) {
    (i % size_x - half(i / size_x), i / size_x)
}

/// Height of a map of `size_y` rows in pixel space.
pub open spec fn absolute_height(size_y: int) -> int {
    QUARTER_RATIO * (3 * size_y + 1)
}

/// Width of a map of `size_x` columns in pixel space.
pub open spec fn absolute_width(size_x: int) -> int {
    ONE * size_x + ONE / 2
}

/// Horizontal centre of the tile at index `i`.
pub open spec fn center_x_at(i: int, size_x: int) -> int {
    center_x_of(coords_of(i, size_x).0, coords_of(i, size_x).1)
}

/// Vertical centre of the tile at index `i`.
pub open spec fn center_y_at(i: int, size_x: int) -> int {
    center_y_of(coords_of(i, size_x).1)
}

/// Grid distance between the tiles at the indices `i` and `j`.
pub open spec fn tile_distance(i: int, j: int, size_x: int) -> int {
    hex_distance(
        coords_of(i, size_x).0,
        coords_of(i, size_x).1,
        coords_of(j, size_x).0,
        coords_of(j, size_x).1,
    )
}

/// Every index of the storage belongs to a tile, and leads back to itself
/// through the tile's coordinates.
pub proof fn lemma_index_roundtrip(i: int, size_x: int, size_y: int)
    requires
        0 <= i < size_x * size_y,
        0 <= size_x,
        0 <= size_y,
    ensures
        is_tile(coords_of(i, size_x).0, coords_of(i, size_x).1, size_x, size_y),
        index_of(coords_of(i, size_x).0, coords_of(i, size_x).1, size_x) == i,
{
    assert(size_x > 0) by (nonlinear_arith)
        requires
            0 <= i < size_x * size_y,
            0 <= size_x,
    ;
    let row = i / size_x;
    let col = i % size_x;
    vstd::arithmetic::div_mod::lemma_fundamental_div_mod(i, size_x);
    vstd::arithmetic::div_mod::lemma_mod_pos_bound(i, size_x);
    assert(0 <= row < size_y) by (nonlinear_arith)
        requires
            i == size_x * row + col,
            0 <= col < size_x,
            0 <= i < size_x * size_y,
    ;
    assert(row * size_x == size_x * row) by (nonlinear_arith);
}

/// The coordinates of every tile have an index in range, and that index
/// leads back to the coordinates.
pub proof fn lemma_coords_roundtrip(x: int, y: int, size_x: int, size_y: int)
    requires
        is_tile(x, y, size_x, size_y),
    ensures
        0 <= index_of(x, y, size_x) < size_x * size_y,
        coords_of(index_of(x, y, size_x), size_x) == (x, y),
{
    let col = x + half(y);
    let i = index_of(x, y, size_x);
    assert(0 <= col < size_x);
    assert(i == y * size_x + col);
    assert(0 <= y * size_x) by (nonlinear_arith)
        requires
            0 <= y,
            0 < size_x,
    ;
    assert(y * size_x + size_x <= size_x * size_y) by (nonlinear_arith)
        requires
            0 <= y < size_y,
            0 < size_x,
    ;
    vstd::arithmetic::div_mod::lemma_fundamental_div_mod_converse(i, size_x, y, col);
}

/// Index of neighbour `k` of the tile at index `tile`.
pub open spec fn neighbour_index(tile: int, k: int, size_x: int, size_y: int) -> int {
    let around = neighbours(coords_of(tile, size_x).0, coords_of(tile, size_x).1, size_x, size_y);
    index_of(around[k].0, around[k].1, size_x)
}

/// Number of neighbours of the tile at index `tile`.
pub open spec fn neighbour_count(tile: int, size_x: int, size_y: int) -> int {
    neighbours(coords_of(tile, size_x).0, coords_of(tile, size_x).1, size_x, size_y).len() as int
}

/// The set of tile indices holds every neighbour of every tile it holds.
pub open spec fn neighbour_closed(tiles: Set<int>, size_x: int, size_y: int) -> bool {
    forall|tile: int, k: int|
        0 <= tile < size_x * size_y && tiles.contains(tile) && 0 <= k < neighbour_count(
            tile,
            size_x,
            size_y,
        ) ==> tiles.contains(#[trigger] neighbour_index(tile, k, size_x, size_y))
}

/// `dir` leads from row `y` to a row of the grid.
pub open spec fn is_open_direction(dir: int, y: int, size_y: int) -> bool {
    dir == 2 || dir == 5 || ((dir == 0 || dir == 1) && y != size_y - 1) || ((dir == 3 || dir
        == 4) && y != 0)
}

/// A closed set that holds a tile holds the tile's neighbour in every open
/// direction.
proof fn lemma_closed_step(tiles: Set<int>, x: int, y: int, dir: int, size_x: int, size_y: int)
    requires
        neighbour_closed(tiles, size_x, size_y),
        is_tile(x, y, size_x, size_y),
        tiles.contains(index_of(x, y, size_x)),
        is_open_direction(dir, y, size_y),
    ensures
        is_tile(neighbour(x, y, size_x, dir).0, neighbour(x, y, size_x, dir).1, size_x, size_y),
        tiles.contains(
            index_of(neighbour(x, y, size_x, dir).0, neighbour(x, y, size_x, dir).1, size_x),
        ),
{
    lemma_coords_roundtrip(x, y, size_x, size_y);
    let tile = index_of(x, y, size_x);
    let dirs = open_directions(y, size_y);
    let k: int = if y != size_y - 1 {
        if dir < 3 {
            dir
        } else if y != 0 {
            dir
        } else {
            3
        }
    } else {
        if dir == 2 {
            0
        } else if y != 0 {
            dir - 2
        } else {
            1
        }
    };
    assert(0 <= k < dirs.len() && dirs[k] == dir);
    assert(neighbours(x, y, size_x, size_y)[k] == neighbour(x, y, size_x, dir));
    lemma_neighbours_are_tiles(x, y, size_x, size_y, k);
    assert(tiles.contains(neighbour_index(tile, k, size_x, size_y)));
}

/// A closed set that holds a tile holds the whole row of the tile.
proof fn lemma_closed_row(tiles: Set<int>, x: int, y: int, other: int, size_x: int, size_y: int)
    requires
        neighbour_closed(tiles, size_x, size_y),
        is_tile(x, y, size_x, size_y),
        is_tile(other, y, size_x, size_y),
        tiles.contains(index_of(x, y, size_x)),
    ensures
        tiles.contains(index_of(other, y, size_x)),
    decreases
            if other >= x {
                other - x
            } else {
                x - other
            },
{
    if other > x {
        lemma_closed_step(tiles, x, y, 5, size_x, size_y);
        lemma_closed_row(tiles, x + 1, y, other, size_x, size_y);
    } else if other < x {
        lemma_closed_step(tiles, x, y, 2, size_x, size_y);
        lemma_closed_row(tiles, x - 1, y, other, size_x, size_y);
    }
}

/// A closed set that holds a tile holds every tile.
proof fn lemma_closed_reach(
    tiles: Set<int>,
    x: int,
    y: int,
    to_x: int,
    to_y: int,
    size_x: int,
    size_y: int,
)
    requires
        neighbour_closed(tiles, size_x, size_y),
        is_tile(x, y, size_x, size_y),
        is_tile(to_x, to_y, size_x, size_y),
        tiles.contains(index_of(x, y, size_x)),
    ensures
        tiles.contains(index_of(to_x, to_y, size_x)),
    decreases
            if to_y >= y {
                to_y - y
            } else {
                y - to_y
            },
{
    if to_y == y {
        lemma_closed_row(tiles, x, y, to_x, size_x, size_y);
    } else if to_y > y {
        lemma_closed_step(tiles, x, y, 0, size_x, size_y);
        let next = neighbour(x, y, size_x, 0);
        lemma_closed_reach(tiles, next.0, next.1, to_x, to_y, size_x, size_y);
    } else {
        lemma_closed_step(tiles, x, y, 3, size_x, size_y);
        let next = neighbour(x, y, size_x, 3);
        lemma_closed_reach(tiles, next.0, next.1, to_x, to_y, size_x, size_y);
    }
}

/// The grid is connected: a set of tiles that holds one tile and, with every
/// tile, the tile's neighbours, holds all tiles.
pub proof fn lemma_grid_connected(tiles: Set<int>, start: int, size_x: int, size_y: int)
    requires
        0 <= size_x,
        0 <= size_y,
        neighbour_closed(tiles, size_x, size_y),
        0 <= start < size_x * size_y,
        tiles.contains(start),
    ensures
        forall|tile: int| 0 <= tile < size_x * size_y ==> tiles.contains(tile),
{
    lemma_index_roundtrip(start, size_x, size_y);
    assert forall|tile: int| 0 <= tile < size_x * size_y implies tiles.contains(tile) by {
        lemma_index_roundtrip(tile, size_x, size_y);
        lemma_closed_reach(
            tiles,
            coords_of(start, size_x).0,
            coords_of(start, size_x).1,
            coords_of(tile, size_x).0,
            coords_of(tile, size_x).1,
            size_x,
            size_y,
        );
    }
}

/// Square of the pixel-space distance from the point `(x, y)` to the centre
/// of the tile at index `i` of a grid that is `size_x` tiles wide.
pub open spec fn tile_distance_sq(size_x: int, x: int, y: int, i: int) -> int {
    dist_sq(
        center_x_of(coords_of(i, size_x).0, coords_of(i, size_x).1),
        center_y_of(coords_of(i, size_x).1),
        x,
        y,
    )
}

/// Index `r` holds a tile closest to the point `(x, y)`, and no tile before
/// it is as close.
pub open spec fn is_nearest_tile(size_x: int, size_y: int, x: int, y: int, r: int) -> bool {
    &&& 0 <= r < size_x * size_y
    &&& forall|j: int|
        0 <= j < size_x * size_y ==> tile_distance_sq(size_x, x, y, r) <= #[trigger] tile_distance_sq(
            size_x,
            x,
            y,
            j,
        )
    &&& forall|j: int|
        0 <= j < r ==> tile_distance_sq(size_x, x, y, r) < #[trigger] tile_distance_sq(size_x, x, y, j)
}

/// Index of the first of the tiles closest to the point `(x, y)`.
pub open spec fn nearest_tile(size_x: int, size_y: int, x: int, y: int) -> int {
    choose|r: int| is_nearest_tile(size_x, size_y, x, y, r)
}

/// There is one first closest tile.
pub proof fn lemma_nearest_tile_unique(size_x: int, size_y: int, x: int, y: int, r: int)
    requires
        is_nearest_tile(size_x, size_y, x, y, r),
    ensures
        nearest_tile(size_x, size_y, x, y) == r,
{
    let other = nearest_tile(size_x, size_y, x, y);
    if other < r {
        assert(tile_distance_sq(size_x, x, y, r) < tile_distance_sq(size_x, x, y, other));
        assert(tile_distance_sq(size_x, x, y, other) <= tile_distance_sq(size_x, x, y, r));
    } else if r < other {
        assert(tile_distance_sq(size_x, x, y, other) < tile_distance_sq(size_x, x, y, r));
        assert(tile_distance_sq(size_x, x, y, r) <= tile_distance_sq(size_x, x, y, other));
    }
}

impl HexMap {
    /// Number of tiles.
    pub open spec fn area(&self) -> int {
        self.size_x * self.size_y
    }

    /// The storage holds one tile for every index, at the coordinates and
    /// with the centre that belong to the index, and the pixel-space extent
    /// belongs to the dimensions.
    pub open spec fn wf(&self) -> bool {
        &&& self.size_x * self.size_y <= i32::MAX
        &&& self.field@.len() == self.size_x * self.size_y
        &&& self.absolute_size_x == absolute_width(self.size_x as int)
        &&& self.absolute_size_y == absolute_height(self.size_y as int)
        &&& forall|i: int|
            0 <= i < self.field@.len() ==> {
                &&& (#[trigger] self.field@[i]).x == coords_of(i, self.size_x as int).0
                &&& self.field@[i].y == coords_of(i, self.size_x as int).1
                &&& self.field@[i].wf()
            }
    }

    /// The terrain of every tile, in storage order.
    pub open spec fn types(&self) -> Seq<HexType> {
        self.field@.map_values(|hex: Hex| hex.terrain_type)
    }

    /// `self` is `before` with the terrain `types`: nothing but the terrain
    /// differs.
    pub open spec fn is_retyping_of(&self, before: &HexMap, types: Seq<HexType>) -> bool {
        &&& self.size_x == before.size_x
        &&& self.size_y == before.size_y
        &&& self.absolute_size_x == before.absolute_size_x
        &&& self.absolute_size_y == before.absolute_size_y
        &&& self.field@.len() == before.field@.len()
        &&& types.len() == before.field@.len()
        &&& forall|i: int|
            0 <= i < self.field@.len() ==> {
                &&& (#[trigger] self.field@[i]).x == before.field@[i].x
                &&& self.field@[i].y == before.field@[i].y
                &&& self.field@[i].center_x == before.field@[i].center_x
                &&& self.field@[i].center_y == before.field@[i].center_y
                &&& self.field@[i].terrain_type == types[i]
            }
    }

    /// `(x, y)` names a tile of this map.
    pub open spec fn has_tile(&self, x: int, y: int) -> bool {
        is_tile(x, y, self.size_x as int, self.size_y as int)
    }

    /// Index `r` holds a tile closest to the point `(x, y)`, and no tile
    /// before it is as close.
    pub open spec fn is_closest(&self, x: int, y: int, r: int) -> bool {
        &&& 0 <= r < self.field@.len()
        &&& forall|j: int|
            0 <= j < self.field@.len() ==> self.distance_sq_to(x, y, r) <= #[trigger] self.distance_sq_to(
                x,
                y,
                j,
            )
        &&& forall|j: int| 0 <= j < r ==> self.distance_sq_to(x, y, r) < #[trigger] self.distance_sq_to(x, y, j)
    }

    /// Square of the pixel-space distance from the point `(x, y)` to the
    /// centre of the tile at index `i`.
    pub open spec fn distance_sq_to(&self, x: int, y: int, i: int) -> int {
        dist_sq(self.field@[i].center_x as int, self.field@[i].center_y as int, x, y)
    }

    /// A retyping of a well-formed map is well-formed.
    pub proof fn lemma_retyping_wf(&self, before: &HexMap, types: Seq<HexType>)
        requires
            before.wf(),
            self.is_retyping_of(before, types),
        ensures
            self.wf(),
            self.types() == types,
    {
        assert forall|i: int| 0 <= i < self.field@.len() implies {
            &&& (#[trigger] self.field@[i]).x == coords_of(i, self.size_x as int).0
            &&& self.field@[i].y == coords_of(i, self.size_x as int).1
            &&& self.field@[i].wf()
        } by {
            assert(before.field@[i].wf());
        }
        assert(self.types() =~= types);
    }

    /// A retyping of a retyping is a retyping of the first map.
    pub proof fn lemma_retyping_chain(&self, middle: &HexMap, before: &HexMap, types: Seq<HexType>)
        requires
            self.is_retyping_of(middle, types),
            middle.is_retyping_of(before, middle.types()),
        ensures
            self.is_retyping_of(before, types),
    {
        assert forall|i: int| 0 <= i < self.field@.len() implies {
            &&& (#[trigger] self.field@[i]).x == before.field@[i].x
            &&& self.field@[i].y == before.field@[i].y
            &&& self.field@[i].center_x == before.field@[i].center_x
            &&& self.field@[i].center_y == before.field@[i].center_y
            &&& self.field@[i].terrain_type == types[i]
        } by {
            assert(middle.field@[i].x == before.field@[i].x);
        }
    }

    /// The pixel-space extent of a well-formed map is positive and stays
    /// below `2^32` tile widths.
    pub proof fn lemma_extent_bounds(&self)
        requires
            self.wf(),
        ensures
            ONE / 2 <= self.absolute_size_x <= ONE * 0x1_0000_0000,
            QUARTER_RATIO <= self.absolute_size_y <= ONE * 0x1_0000_0000,
    {
    }

    /// The centre of every tile lies inside the pixel-space extent.
    pub proof fn lemma_center_bounds(&self, i: int)
        requires
            self.wf(),
            0 <= i < self.field@.len(),
        ensures
            0 < self.field@[i].center_x < self.absolute_size_x,
            0 < self.field@[i].center_y < self.absolute_size_y,
            self.absolute_size_x <= ONE * 0x1_0000_0000,
            self.absolute_size_y <= ONE * 0x1_0000_0000,
            self.has_tile(self.field@[i].x as int, self.field@[i].y as int),
            index_of(self.field@[i].x as int, self.field@[i].y as int, self.size_x as int) == i,
    {
        lemma_index_roundtrip(i, self.size_x as int, self.size_y as int);
        let hex = self.field@[i];
        assert(hex.wf());
        let x = hex.x as int;
        let y = hex.y as int;
        assert(0 <= x + half(y) < self.size_x);
        assert(0 <= y < self.size_y);
    }

    /// Creates a map of the given dimensions with every tile in place and
    /// covered by water.
    pub fn new(size_x: u32, size_y: u32) -> (map: HexMap)
        requires
            size_x * size_y <= i32::MAX,
        ensures
            map.wf(),
            map.size_x == size_x,
            map.size_y == size_y,
            forall|i: int| 0 <= i < map.field@.len() ==> (#[trigger] map.field@[i]).terrain_type == HexType::Water,
    {
        let field: Vec<Hex> = Vec::new();
        let absolute_size_x: i64 = ONE * (size_x as i64) + ONE / 2;
        let absolute_size_y: i64 = QUARTER_RATIO * (3 * (size_y as i64) + 1);
        let mut map = HexMap { size_x, size_y, field, absolute_size_x, absolute_size_y };
        let area: u32 = ((size_x as u64) * (size_y as u64)) as u32;
        let mut i: u32 = 0;
        while i < area
            invariant
                i <= area,
                area == size_x * size_y,
                area <= i32::MAX,
                map.size_x == size_x,
                map.size_y == size_y,
                map.absolute_size_x == ONE * size_x + ONE / 2,
                map.absolute_size_y == QUARTER_RATIO * (3 * size_y + 1),
                map.field@.len() == i,
                forall|j: int|
                    0 <= j < i ==> {
                        &&& (#[trigger] map.field@[j]).x == coords_of(j, size_x as int).0
                        &&& map.field@[j].y == coords_of(j, size_x as int).1
                        &&& map.field@[j].wf()
                        &&& map.field@[j].terrain_type == HexType::Water
                    },
            decreases area - i,
        {
            let (x, y) = HexMap::coords_at(i, size_x, size_y);
            let hex = Hex::from_coords(x, y);
            map.field.push(hex);
            i += 1;
        }
        map
    }

    /// Tells whether the map is well formed: whether it holds one tile for
    /// every index, at the coordinates and with the centre that belong to the
    /// index, and has the pixel-space extent of its dimensions.
    pub fn is_well_formed(&self) -> (ok: bool)
        ensures
            ok == self.wf(),
    {
        assert(self.size_x * self.size_y <= 0xffff_ffff * 0xffff_ffff) by (nonlinear_arith)
            requires
                0 <= self.size_x <= 0xffff_ffff,
                0 <= self.size_y <= 0xffff_ffff,
        ;
        let area: u64 = (self.size_x as u64) * (self.size_y as u64);
        if area > 0x7fff_ffff {
            return false;
        }
        if self.field.len() as u64 != area {
            return false;
        }
        if self.absolute_size_x != ONE * (self.size_x as i64) + ONE / 2 {
            return false;
        }
        if self.absolute_size_y != QUARTER_RATIO * (3 * (self.size_y as i64) + 1) {
            return false;
        }
        let mut i: usize = 0;
        while i < self.field.len()
            invariant
                i <= self.field@.len(),
                self.size_x * self.size_y <= i32::MAX,
                self.field@.len() == self.size_x * self.size_y,
                self.absolute_size_x == absolute_width(self.size_x as int),
                self.absolute_size_y == absolute_height(self.size_y as int),
                forall|j: int|
                    0 <= j < i ==> {
                        &&& (#[trigger] self.field@[j]).x == coords_of(j, self.size_x as int).0
                        &&& self.field@[j].y == coords_of(j, self.size_x as int).1
                        &&& self.field@[j].wf()
                    },
            decreases self.field@.len() - i,
        {
            let hex: Hex = self.field[i];
            let (x, y) = HexMap::coords_at(i as u32, self.size_x, self.size_y);
            let expected = Hex::from_coords(x, y);
            if hex.x != x || hex.y != y || hex.center_x != expected.center_x || hex.center_y
                != expected.center_y {
                proof {
                    assert(!(self.field@[i as int].x == coords_of(i as int, self.size_x as int).0
                        && self.field@[i as int].y == coords_of(i as int, self.size_x as int).1
                        && self.field@[i as int].wf()));
                }
                return false;
            }
            i += 1;
        }
        true
    }

    /// Coordinates of index `i` in a grid of the given dimensions.
    fn coords_at(i: u32, size_x: u32, size_y: u32) -> (r: (i32, i32))
        requires
            i < size_x * size_y,
            size_x * size_y <= i32::MAX,
        ensures
            r.0 == coords_of(i as int, size_x as int).0,
            r.1 == coords_of(i as int, size_x as int).1,
            is_tile(r.0 as int, r.1 as int, size_x as int, size_y as int),
    {
        proof {
            lemma_index_roundtrip(i as int, size_x as int, size_y as int);
        }
        let line: u32 = i / size_x;
        let column: u32 = i % size_x;
        let pos: i32 = column as i32 - half_of(line as i32);
        (pos, line as i32)
    }

    /// Converts coordinates into the index of their tile.
    ///
    /// Fails when the coordinates name no tile of the map.
    pub fn coords_to_index(&self, x: i32, y: i32) -> (r: Result<usize, IndexOutOfRange>)
        requires
            self.wf(),
        ensures
            self.has_tile(x as int, y as int) ==> r == Ok::<usize, IndexOutOfRange>(
                index_of(x as int, y as int, self.size_x as int) as usize,
            ) && index_of(x as int, y as int, self.size_x as int) < self.field@.len(),
            !self.has_tile(x as int, y as int) ==> r == Err::<usize, IndexOutOfRange>(IndexOutOfRange),
    {
        if y < 0 || y as i64 >= self.size_y as i64 {
            return Err(IndexOutOfRange);
        }
        let offset: i64 = half_of(y) as i64;
        let column: i64 = x as i64 + offset;
        if column < 0 || column >= self.size_x as i64 {
            return Err(IndexOutOfRange);
        }
        proof {
            lemma_coords_roundtrip(x as int, y as int, self.size_x as int, self.size_y as int);
            assert(y * self.size_x <= self.size_x * self.size_y) by (nonlinear_arith)
                requires
                    0 <= y < self.size_y,
                    0 <= self.size_x,
            ;
            assert(0 <= y * self.size_x) by (nonlinear_arith)
                requires
                    0 <= y,
                    0 <= self.size_x,
            ;
        }
        let index: i64 = (y as i64) * (self.size_x as i64) + column;
        Ok(index as usize)
    }

    /// Converts an index into the coordinates of its tile.
    ///
    /// Fails when the index is not below the number of tiles.
    pub fn index_to_coords(&self, i: u32) -> (r: Result<(i32, i32), IndexOutOfRange>)
        requires
            self.wf(),
        ensures
            i < self.area() ==> r == Ok::<(i32, i32), IndexOutOfRange>(
                (
                    coords_of(i as int, self.size_x as int).0 as i32,
                    coords_of(i as int, self.size_x as int).1 as i32,
                ),
            ) && self.has_tile(
                coords_of(i as int, self.size_x as int).0,
                coords_of(i as int, self.size_x as int).1,
            ),
            i >= self.area() ==> r == Err::<(i32, i32), IndexOutOfRange>(IndexOutOfRange),
    {
        if i as u64 >= (self.size_x as u64) * (self.size_y as u64) {
            return Err(IndexOutOfRange);
        }
        Ok(HexMap::coords_at(i, self.size_x, self.size_y))
    }

    /// Returns the number of tiles.
    pub fn get_area(&self) -> (area: u32)
        requires
            self.wf(),
        ensures
            area == self.area(),
    {
        self.size_x * self.size_y
    }

    /// Returns the mean of the two dimensions, rounded down.
    pub fn get_avg_size(&self) -> (avg: u32)
        ensures
            avg == (self.size_x + self.size_y) / 2,
    {
        ((self.size_x as u64 + self.size_y as u64) / 2) as u32
    }

    /// Returns the indices of the tiles next to the tile at `tile`.
    pub fn neighbour_indices(&self, tile: usize) -> (r: Vec<usize>)
        requires
            self.wf(),
            tile < self.field@.len(),
        ensures
            r@.len() == neighbour_count(tile as int, self.size_x as int, self.size_y as int),
            2 <= r@.len() <= 6,
            forall|k: int|
                0 <= k < r@.len() ==> r@[k] == neighbour_index(
                    tile as int,
                    k,
                    self.size_x as int,
                    self.size_y as int,
                ) && r@[k] < self.field@.len(),
    {
        let hex: Hex = self.field[tile];
        proof {
            self.lemma_center_bounds(tile as int);
            lemma_tile_neighbours_fit(
                hex.x as int,
                hex.y as int,
                self.size_x as int,
                self.size_y as int,
            );
        }
        let around = hex.get_neighbours(self);
        let ghost tiles = neighbours(
            hex.x as int,
            hex.y as int,
            self.size_x as int,
            self.size_y as int,
        );
        assert(around@.len() == tiles.len());
        let mut found: Vec<usize> = Vec::with_capacity(6);
        let mut k: usize = 0;
        while k < around.len()
            invariant
                k <= around@.len(),
                self.wf(),
                tile < self.field@.len(),
                coords(around@) == tiles,
                tiles == neighbours(
                    hex.x as int,
                    hex.y as int,
                    self.size_x as int,
                    self.size_y as int,
                ),
                hex.x == coords_of(tile as int, self.size_x as int).0,
                hex.y == coords_of(tile as int, self.size_x as int).1,
                self.has_tile(hex.x as int, hex.y as int),
                found@.len() == k,
                forall|j: int|
                    0 <= j < k ==> found@[j] == neighbour_index(
                        tile as int,
                        j,
                        self.size_x as int,
                        self.size_y as int,
                    ) && found@[j] < self.field@.len(),
            decreases around@.len() - k,
        {
            proof {
                lemma_neighbours_are_tiles(
                    hex.x as int,
                    hex.y as int,
                    self.size_x as int,
                    self.size_y as int,
                    k as int,
                );
                assert(coords(around@)[k as int] == (
                    around@[k as int].0 as int,
                    around@[k as int].1 as int,
                ));
            }
            let place = self.coords_to_index(around[k].0, around[k].1);
            match place {
                Ok(at) => {
                    found.push(at);
                },
                Err(_) => {
                    found.push(0);
                },
            }
            k += 1;
        }
        found
    }

    /// Returns the index of the tile whose centre is closest to the point
    /// `(x, y)` of pixel space, the first such tile where several are equally
    /// close. The point may lie outside the map. An empty map gives 0.
    pub fn get_closest_hex_index(&self, x: i64, y: i64) -> (r: usize)
        requires
            self.wf(),
        ensures
            self.field@.len() == 0 ==> r == 0,
            self.field@.len() > 0 ==> self.is_closest(x as int, y as int, r as int),
    {
        let mut closest_index: usize = 0;
        if self.field.len() == 0 {
            return closest_index;
        }
        proof {
            self.lemma_center_bounds(0);
        }
        let mut min_dst: u128 = distance_squared(self.field[0].center_x, self.field[0].center_y, x, y);
        let mut index: usize = 1;
        while index < self.field.len()
            invariant
                self.wf(),
                1 <= index <= self.field@.len(),
                closest_index < index,
                min_dst == self.distance_sq_to(x as int, y as int, closest_index as int),
                forall|j: int|
                    0 <= j < index ==> min_dst <= #[trigger] self.distance_sq_to(x as int, y as int, j),
                forall|j: int|
                    0 <= j < closest_index ==> min_dst < #[trigger] self.distance_sq_to(
                        x as int,
                        y as int,
                        j,
                    ),
            decreases self.field@.len() - index,
        {
            proof {
                self.lemma_center_bounds(index as int);
            }
            let dst: u128 = distance_squared(
                self.field[index].center_x,
                self.field[index].center_y,
                x,
                y,
            );
            if min_dst > dst {
                min_dst = dst;
                closest_index = index;
            }
            index += 1;
        }
        closest_index
    }

    /// The closest tile of a well-formed map is the nearest tile of its
    /// grid.
    pub proof fn lemma_closest_is_nearest(&self, x: int, y: int, r: int)
        requires
            self.wf(),
            self.is_closest(x, y, r),
        ensures
            nearest_tile(self.size_x as int, self.size_y as int, x, y) == r,
    {
        let size_x = self.size_x as int;
        let size_y = self.size_y as int;
        assert forall|j: int| 0 <= j < size_x * size_y implies self.distance_sq_to(x, y, j)
            == #[trigger] tile_distance_sq(size_x, x, y, j) by {
            assert(self.field@[j].wf());
        }
        assert forall|j: int| 0 <= j < size_x * size_y implies tile_distance_sq(size_x, x, y, r)
            <= #[trigger] tile_distance_sq(size_x, x, y, j) by {
            assert(self.distance_sq_to(x, y, r) <= self.distance_sq_to(x, y, j));
        }
        assert forall|j: int| 0 <= j < r implies tile_distance_sq(size_x, x, y, r)
            < #[trigger] tile_distance_sq(size_x, x, y, j) by {
            assert(self.distance_sq_to(x, y, r) < self.distance_sq_to(x, y, j));
        }
        lemma_nearest_tile_unique(size_x, size_y, x, y, r);
    }

    /// Returns the index of the tile whose centre is closest to the given
    /// point. The horizontal seam is not taken into account.
    pub fn get_closest_hex_index_wrapped(&self, x: i64, y: i64) -> (r: usize)
        requires
            self.wf(),
        ensures
            self.field@.len() == 0 ==> r == 0,
            self.field@.len() > 0 ==> self.is_closest(x as int, y as int, r as int),
    {
        self.get_closest_hex_index(x, y)
    }

    /// Returns the tile in column `x` of row `y` of the storage.
    pub fn get_hex(&self, x: i32, y: i32) -> (hex: &Hex)
        requires
            0 <= x,
            0 <= y,
            x + y * self.size_x < self.field@.len(),
        ensures
            *hex == self.field@[x + y * self.size_x],
    {
        let len: usize = self.field.len();
        let index: u64 = x as u64 + (y as u64) * (self.size_x as u64);
        &self.field[index as usize]
    }

    /// Returns the tile in column `x` of row `y` of the storage for
    /// writing.
    pub fn get_hex_mut(&mut self, x: i32, y: i32) -> (hex: &mut Hex)
        requires
            0 <= x,
            0 <= y,
            x + y * old(self).size_x < old(self).field@.len(),
        ensures
            *hex == old(self).field@[x + y * old(self).size_x],
            final(self).field@ == old(self).field@.update(x + y * old(self).size_x, *final(hex)),
            final(self).size_x == old(self).size_x,
            final(self).size_y == old(self).size_y,
            final(self).absolute_size_x == old(self).absolute_size_x,
            final(self).absolute_size_y == old(self).absolute_size_y,
    {
        let len: usize = self.field.len();
        let index: u64 = x as u64 + (y as u64) * (self.size_x as u64);
        &mut self.field[index as usize]
    }

    /// Replaces the tile in column `x` of row `y` of the storage.
    pub fn set_hex(&mut self, x: i32, y: i32, hex: Hex)
        requires
            0 <= x,
            0 <= y,
            x + y * old(self).size_x < old(self).field@.len(),
        ensures
            final(self).field@ == old(self).field@.update(x + y * old(self).size_x, hex),
            final(self).size_x == old(self).size_x,
            final(self).size_y == old(self).size_y,
            final(self).absolute_size_x == old(self).absolute_size_x,
            final(self).absolute_size_y == old(self).absolute_size_y,
    {
        let len: usize = self.field.len();
        let index: u64 = x as u64 + (y as u64) * (self.size_x as u64);
        self.field[index as usize] = hex;
    }

    /// Sets the terrain of the tile at `index`.
    pub fn set_type(&mut self, index: usize, terrain: HexType)
        requires
            index < old(self).field@.len(),
        ensures
            final(self).is_retyping_of(old(self), old(self).types().update(index as int, terrain)),
    {
        self.field[index].terrain_type = terrain;
    }

    /// Gives every tile the terrain that `types` holds for it.
    pub fn retype(&mut self, types: &Vec<HexType>)
        requires
            old(self).wf(),
            types@.len() == old(self).field@.len(),
        ensures
            final(self).is_retyping_of(old(self), types@),
            final(self).wf(),
            final(self).types() == types@,
    {
        let mut i: usize = 0;
        while i < self.field.len()
            invariant
                i <= self.field@.len(),
                types@.len() == old(self).field@.len(),
                self.is_retyping_of(
                    old(self),
                    Seq::new(
                        old(self).field@.len(),
                        |j: int|
                            if j < i {
                                types@[j]
                            } else {
                                old(self).field@[j].terrain_type
                            },
                    ),
                ),
            decreases self.field@.len() - i,
        {
            self.field[i].terrain_type = types[i];
            i += 1;
        }
        proof {
            assert(self.is_retyping_of(old(self), types@));
            self.lemma_retyping_wf(old(self), types@);
        }
    }

    /// Sets the terrain of every tile.
    pub fn fill(&mut self, terrain: HexType)
        ensures
            final(self).is_retyping_of(
                old(self),
                Seq::new(old(self).field@.len(), |i: int| terrain),
            ),
    {
        let mut i: usize = 0;
        while i < self.field.len()
            invariant
                i <= self.field@.len(),
                self.is_retyping_of(
                    old(self),
                    Seq::new(
                        old(self).field@.len(),
                        |j: int|
                            if j < i {
                                terrain
                            } else {
                                old(self).field@[j].terrain_type
                            },
                    ),
                ),
            decreases self.field@.len() - i,
        {
            self.field[i].terrain_type = terrain;
            i += 1;
        }
    }
}

} // verus!
