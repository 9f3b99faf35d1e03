//! A single tile and the topology of the offset coordinate system.
//!
//! Row `y` of a grid that is `size_x` tiles wide holds the columns
//! `-(y / 2) .. size_x - y / 2`: every second row starts one column further
//! to the left, which makes the six neighbour offsets the same in every row.
//! The grid wraps around horizontally and ends at its top and bottom rows.

use vstd::prelude::*;
use crate::fixed::{abs, half, half_of, ONE};
use crate::hexmap::HexMap;
use crate::rng::draw_below;
use rand::rngs::StdRng;

verus! {

/// Height of a hexagon that is one unit wide, in millionths.
pub const RATIO: i64 = 1_154_700;

/// A quarter of `RATIO`: the distance between the centres of two adjacent
/// rows is three times this length.
pub const QUARTER_RATIO: i64 = 288_675;

/// Type of terrain or feature on a tile.
///
/// The two diagnostic variants carry their payload in millionths.
#[derive(Clone, Copy, Debug, PartialEq, Eq, Hash, Structural)]
pub enum HexType {
    Field,
    Forest,
    Desert,
    Tundra,
    Water,
    Ocean,
    Mountain,
    Impassable,
    Ice,
    Jungle,
    Swamp,
    Grassland,
    Debug(i32),
    Debug2d(i32, i32),
}

/// Data of a single map tile.
#[derive(Clone, Copy, Debug)]
pub struct Hex {
    pub x: i32,
    pub y: i32,
    pub terrain_type: HexType,
    /// Horizontal position of the centre, in millionths of a tile width.
    pub center_x: i64,
    /// Vertical position of the centre, in millionths of a tile width.
    pub center_y: i64,
}

/// Horizontal centre of the tile at `(x, y)`.
pub open spec fn center_x_of(x: int, y: int) -> int {
    ONE * x + ONE * half(y) + (if y % 2 == 0 {
        ONE / 2
    } else {
        ONE as int
    })
}

/// Vertical centre of the tiles of row `y`.
pub open spec fn center_y_of(y: int) -> int {
    QUARTER_RATIO * (3 * y + 2)
}

/// Grid distance between `(ax, ay)` and `(bx, by)`: half the sum of the three
/// cube-coordinate differences.
pub open spec fn hex_distance(ax: int, ay: int, bx: int, by: int) -> int {
    (abs(ax - bx) + abs(ax + ay - bx - by) + abs(ay - by)) / 2
}

/// Column `x` of row `y` moved by one grid width where it lies outside the
/// row.
pub open spec fn wrap_x(x: int, y: int, size_x: int) -> int {
    if x < -half(y) {
        x + size_x
    } else if x >= size_x - half(y) {
        x - size_x
    } else {
        x
    }
}

/// The column of row `y` that is congruent to `x` modulo the grid width.
pub open spec fn normalize_x(x: int, y: int, size_x: int) -> int {
    (x + half(y)) % size_x - half(y)
}

/// `(x, y)` names a tile of a grid with the given dimensions.
pub open spec fn is_tile(x: int, y: int, size_x: int, size_y: int) -> bool {
    0 <= y < size_y && -half(y) <= x < size_x - half(y)
}

/// The six directions in the order bottom right, bottom left, left, top left,
/// top right, right.
pub open spec fn direction(dir: int) -> (int, int) {
    if dir == 0 {
        (0, 1)
    } else if dir == 1 {
        (-1, 1)
    } else if dir == 2 {
        (-1, 0)
    } else if dir == 3 {
        (0, -1)
    } else if dir == 4 {
        (1, -1)
    } else {
        (1, 0)
    }
}

/// The tile next to `(x, y)` in direction `dir`, wrapped once horizontally.
pub open spec fn neighbour(x: int, y: int, size_x: int, dir: int) -> (int, int) {
    (wrap_x(x + direction(dir).0, y + direction(dir).1, size_x), y + direction(dir).1)
}

/// All six neighbours, whether or not their row exists.
pub open spec fn neighbours_unchecked(x: int, y: int, size_x: int) -> Seq<(int, int)> {
    Seq::new(6, |dir: int| neighbour(x, y, size_x, dir))
}

/// The directions that lead from row `y` to a row of the grid.
pub open spec fn open_directions(y: int, size_y: int) -> Seq<int> {
    (if y != size_y - 1 {
        seq![0int, 1int]
    } else {
        Seq::<int>::empty()
    }) + seq![2int] + (if y != 0 {
        seq![3int, 4int]
    } else {
        Seq::<int>::empty()
    }) + seq![5int]
}

/// The neighbours of `(x, y)`: the upper two are missing in the top row, the
/// lower two in the bottom row.
pub open spec fn neighbours(x: int, y: int, size_x: int, size_y: int) -> Seq<(int, int)> {
    open_directions(y, size_y).map_values(|dir: int| neighbour(x, y, size_x, dir))
}

/// Coordinates as mathematical integers.
pub open spec fn coords(v: Seq<(i32, i32)>) -> Seq<(int, int)> {
    v.map_values(|p: (i32, i32)| (p.0 as int, p.1 as int))
}

/// Every neighbour that `neighbours_unchecked` lists fits the coordinate
/// type.
pub open spec fn neighbours_fit(x: int, y: int, size_x: int) -> bool {
    forall|dir: int|
        0 <= dir < 6 ==> {
            &&& i32::MIN <= (#[trigger] neighbour(x, y, size_x, dir)).0 <= i32::MAX
            &&& i32::MIN <= neighbour(x, y, size_x, dir).1 <= i32::MAX
        }
}

/// Offset from the centre of position `k` of the ring of radius `radius`:
/// the walk starts `radius` steps to the top right and follows the six edges
/// in the order of `direction`, `radius` steps each.
pub open spec fn ring_offset(radius: int, k: int) -> (int, int) {
    let edge = k / radius;
    let step = k % radius;
    if edge == 0 {
        (radius, step - radius)
    } else if edge == 1 {
        (radius - step, step)
    } else if edge == 2 {
        (-step, radius)
    } else if edge == 3 {
        (-radius, radius - step)
    } else if edge == 4 {
        (step - radius, -step)
    } else {
        (step, -radius)
    }
}

/// The first `k` positions of the ring around `(x, y)`, without those whose
/// row lies outside the grid, each in the column range of its row.
pub open spec fn ring_prefix(x: int, y: int, radius: int, size_x: int, size_y: int, k: int) -> Seq<
    (int, int),
>
    decreases k,
{
    if k <= 0 {
        Seq::empty()
    } else {
        let rest = ring_prefix(x, y, radius, size_x, size_y, k - 1);
        let off = ring_offset(radius, k - 1);
        if 0 <= y + off.1 < size_y {
            rest.push((normalize_x(x + off.0, y + off.1, size_x), y + off.1))
        } else {
            rest
        }
    }
}

/// The tiles at exactly `radius` grid steps from `(x, y)`.
pub open spec fn ring(x: int, y: int, radius: int, size_x: int, size_y: int) -> Seq<(int, int)> {
    ring_prefix(x, y, radius, size_x, size_y, 6 * radius)
}

/// The rings of radius 1 to `radius` around `(x, y)`, one after the other.
pub open spec fn spiral(x: int, y: int, radius: int, size_x: int, size_y: int) -> Seq<(int, int)>
    decreases radius,
{
    if radius <= 0 {
        Seq::empty()
    } else {
        spiral(x, y, radius - 1, size_x, size_y) + ring(x, y, radius, size_x, size_y)
    }
}

/// The grid distance does not depend on the order of its arguments.
pub proof fn lemma_distance_symmetric(ax: int, ay: int, bx: int, by: int)
    ensures
        hex_distance(ax, ay, bx, by) == hex_distance(bx, by, ax, ay),
{
}

/// A tile is at distance zero from itself.
pub proof fn lemma_distance_to_self(ax: int, ay: int)
    ensures
        hex_distance(ax, ay, ax, ay) == 0,
{
}

/// Every neighbour of a tile is a tile.
pub proof fn lemma_neighbours_are_tiles(x: int, y: int, size_x: int, size_y: int, k: int)
    requires
        is_tile(x, y, size_x, size_y),
        0 <= k < neighbours(x, y, size_x, size_y).len(),
    ensures
        is_tile(
            neighbours(x, y, size_x, size_y)[k].0,
            neighbours(x, y, size_x, size_y)[k].1,
            size_x,
            size_y,
        ),
{
    let dir = open_directions(y, size_y)[k];
    assert(0 <= dir < 6);
    assert(neighbours(x, y, size_x, size_y)[k] == neighbour(x, y, size_x, dir));
}

/// Neighbourhood is symmetric: a tile is a neighbour of each of its
/// neighbours, across the horizontal seam as well.
pub proof fn lemma_neighbour_symmetry(x: int, y: int, size_x: int, size_y: int, k: int)
    requires
        is_tile(x, y, size_x, size_y),
        0 <= k < neighbours(x, y, size_x, size_y).len(),
    ensures
        neighbours(
            neighbours(x, y, size_x, size_y)[k].0,
            neighbours(x, y, size_x, size_y)[k].1,
            size_x,
            size_y,
        ).contains((x, y)),
{
    let dir = open_directions(y, size_y)[k];
    let b = neighbours(x, y, size_x, size_y)[k];
    assert(b == neighbour(x, y, size_x, dir));
    let back = (dir + 3) % 6;
    assert(neighbour(b.0, b.1, size_x, back) == (x, y));
    let dirs = open_directions(b.1, size_y);
    let j = choose|j: int| 0 <= j < dirs.len() && dirs[j] == back;
    assert(0 <= j < dirs.len() && dirs[j] == back) by {
        if b.1 != size_y - 1 && b.1 != 0 {
            assert(dirs[0] == 0 && dirs[1] == 1 && dirs[2] == 2 && dirs[3] == 3 && dirs[4] == 4
                && dirs[5] == 5);
        } else if b.1 != size_y - 1 {
            assert(dirs[0] == 0 && dirs[1] == 1 && dirs[2] == 2 && dirs[3] == 5);
        } else if b.1 != 0 {
            assert(dirs[0] == 2 && dirs[1] == 3 && dirs[2] == 4 && dirs[3] == 5);
        } else {
            assert(dirs[0] == 2 && dirs[1] == 5);
        }
    }
    assert(neighbours(b.0, b.1, size_x, size_y)[j] == (x, y));
}

/// Every position of a ring lies exactly `radius` grid steps from the
/// centre, before it is wrapped into its row.
pub proof fn lemma_ring_offset_distance(radius: int, k: int)
    requires
        radius > 0,
        0 <= k < 6 * radius,
    ensures
        hex_distance(0, 0, ring_offset(radius, k).0, ring_offset(radius, k).1) == radius,
        -radius <= ring_offset(radius, k).1 <= radius,
        -radius <= ring_offset(radius, k).0 <= radius,
{
    let edge = k / radius;
    let step = k % radius;
    vstd::arithmetic::div_mod::lemma_fundamental_div_mod(k, radius);
    vstd::arithmetic::div_mod::lemma_mod_pos_bound(k, radius);
    assert(0 <= edge < 6) by (nonlinear_arith)
        requires
            radius > 0,
            0 <= k < 6 * radius,
            k == radius * edge + step,
            0 <= step < radius,
    ;
}

/// Every offset at a distance of `radius` steps is a position of the ring.
pub proof fn lemma_ring_offset_complete(radius: int, dx: int, dy: int) -> (k: int)
    requires
        radius >= 1,
        hex_distance(0, 0, dx, dy) == radius,
    ensures
        0 <= k < 6 * radius,
        ring_offset(radius, k) == (dx, dy),
{
    let (edge, step): (int, int) = if dx == radius && dy != 0 {
        (0, dy + radius)
    } else if dx + dy == radius && dx != 0 {
        (1, dy)
    } else if dy == radius && dx != -radius {
        (2, -dx)
    } else if dx == -radius && dy != 0 {
        (3, radius - dy)
    } else if dx + dy == -radius && dx != 0 {
        (4, -dy)
    } else {
        (5, dx)
    };
    assert(0 <= step < radius);
    let k = if edge == 0 {
        step
    } else if edge == 1 {
        radius + step
    } else if edge == 2 {
        2 * radius + step
    } else if edge == 3 {
        3 * radius + step
    } else if edge == 4 {
        4 * radius + step
    } else {
        5 * radius + step
    };
    assert(k == edge * radius + step) by (nonlinear_arith)
        requires
            0 <= edge <= 5,
            k == (if edge == 0 {
                step
            } else if edge == 1 {
                radius + step
            } else if edge == 2 {
                2 * radius + step
            } else if edge == 3 {
                3 * radius + step
            } else if edge == 4 {
                4 * radius + step
            } else {
                5 * radius + step
            }),
    ;
    vstd::arithmetic::div_mod::lemma_fundamental_div_mod_converse(k, radius, edge, step);
    k
}

/// Different positions of a ring have different offsets: before columns
/// are wrapped, the walk around the ring meets no place twice.
pub proof fn lemma_ring_offsets_distinct(radius: int, first: int, second: int)
    requires
        radius >= 1,
        0 <= first < second < 6 * radius,
    ensures
        ring_offset(radius, first) != ring_offset(radius, second),
{
    vstd::arithmetic::div_mod::lemma_fundamental_div_mod(first, radius);
    vstd::arithmetic::div_mod::lemma_mod_pos_bound(first, radius);
    vstd::arithmetic::div_mod::lemma_fundamental_div_mod(second, radius);
    vstd::arithmetic::div_mod::lemma_mod_pos_bound(second, radius);
    let e1 = first / radius;
    let e2 = second / radius;
    assert(0 <= e1 < 6 && 0 <= e2 < 6) by (nonlinear_arith)
        requires
            radius >= 1,
            0 <= first < 6 * radius,
            0 <= second < 6 * radius,
            first == radius * e1 + first % radius,
            second == radius * e2 + second % radius,
            0 <= first % radius < radius,
            0 <= second % radius < radius,
    ;
    if e1 == e2 {
        assert(first % radius != second % radius) by (nonlinear_arith)
            requires
                e1 == e2,
                first != second,
                first == radius * e1 + first % radius,
                second == radius * e2 + second % radius,
        ;
    }
}

/// A position of the ring whose row belongs to the grid is listed, in the
/// column range of its row.
pub proof fn lemma_ring_prefix_holds(
    x: int,
    y: int,
    radius: int,
    size_x: int,
    size_y: int,
    n: int,
    k: int,
)
    requires
        0 <= k < n,
        0 <= y + ring_offset(radius, k).1 < size_y,
    ensures
        ring_prefix(x, y, radius, size_x, size_y, n).contains(
            (
                normalize_x(x + ring_offset(radius, k).0, y + ring_offset(radius, k).1, size_x),
                y + ring_offset(radius, k).1,
            ),
        ),
    decreases n,
{
    let list = ring_prefix(x, y, radius, size_x, size_y, n);
    let rest = ring_prefix(x, y, radius, size_x, size_y, n - 1);
    let wanted = (
        normalize_x(x + ring_offset(radius, k).0, y + ring_offset(radius, k).1, size_x),
        y + ring_offset(radius, k).1,
    );
    if k == n - 1 {
        assert(list[list.len() - 1] == wanted);
    } else {
        lemma_ring_prefix_holds(x, y, radius, size_x, size_y, n - 1, k);
        let m = choose|m: int| 0 <= m < rest.len() && rest[m] == wanted;
        assert(list[m] == wanted);
    }
}

/// The ring lists every tile that lies `radius` steps from its centre: a
/// tile at a grid distance of `radius`, with `radius` at least 1, is a tile
/// of the ring of that radius.
pub proof fn lemma_ring_complete(ax: int, ay: int, bx: int, by: int, size_x: int, size_y: int)
    requires
        is_tile(bx, by, size_x, size_y),
        hex_distance(ax, ay, bx, by) >= 1,
    ensures
        ring(ax, ay, hex_distance(ax, ay, bx, by), size_x, size_y).contains((bx, by)),
{
    let radius = hex_distance(ax, ay, bx, by);
    let k = lemma_ring_offset_complete(radius, bx - ax, by - ay);
    lemma_ring_prefix_holds(ax, ay, radius, size_x, size_y, 6 * radius, k);
    vstd::arithmetic::div_mod::lemma_small_mod((bx + half(by)) as nat, size_x as nat);
}

/// A ring has at most `6 * radius` tiles.
pub proof fn lemma_ring_prefix_len(x: int, y: int, radius: int, size_x: int, size_y: int, k: int)
    requires
        k >= 0,
    ensures
        ring_prefix(x, y, radius, size_x, size_y, k).len() <= k,
    decreases k,
{
    if k > 0 {
        lemma_ring_prefix_len(x, y, radius, size_x, size_y, k - 1);
    }
}

/// Where every row within `radius` of the centre exists, no position of the
/// ring is dropped.
pub proof fn lemma_ring_prefix_full(x: int, y: int, radius: int, size_x: int, size_y: int, k: int)
    requires
        radius > 0,
        0 <= k <= 6 * radius,
        0 <= y - radius,
        y + radius < size_y,
    ensures
        ring_prefix(x, y, radius, size_x, size_y, k).len() == k,
    decreases k,
{
    if k > 0 {
        lemma_ring_prefix_full(x, y, radius, size_x, size_y, k - 1);
        lemma_ring_offset_distance(radius, k - 1);
    }
}

/// Ring cardinality: at most `6 * radius` tiles, and exactly that many where
/// neither the top nor the bottom edge of the grid cuts the ring.
pub proof fn lemma_ring_cardinality(x: int, y: int, radius: int, size_x: int, size_y: int)
    requires
        radius > 0,
    ensures
        ring(x, y, radius, size_x, size_y).len() <= 6 * radius,
        0 <= y - radius && y + radius < size_y ==> ring(x, y, radius, size_x, size_y).len() == 6
            * radius,
{
    lemma_ring_prefix_len(x, y, radius, size_x, size_y, 6 * radius);
    if 0 <= y - radius && y + radius < size_y {
        lemma_ring_prefix_full(x, y, radius, size_x, size_y, 6 * radius);
    }
}

/// Every tile of a ring is a tile of the grid.
pub proof fn lemma_ring_prefix_tiles(
    x: int,
    y: int,
    radius: int,
    size_x: int,
    size_y: int,
    k: int,
    j: int,
)
    requires
        size_x > 0,
        0 <= j < ring_prefix(x, y, radius, size_x, size_y, k).len(),
    ensures
        is_tile(
            ring_prefix(x, y, radius, size_x, size_y, k)[j].0,
            ring_prefix(x, y, radius, size_x, size_y, k)[j].1,
            size_x,
            size_y,
        ),
    decreases k,
{
    if k > 0 {
        let rest = ring_prefix(x, y, radius, size_x, size_y, k - 1);
        if j < rest.len() {
            lemma_ring_prefix_tiles(x, y, radius, size_x, size_y, k - 1, j);
        }
    }
}

/// A grid without rows has no ring tiles, nor has a ring without positions.
pub proof fn lemma_ring_prefix_rows(x: int, y: int, radius: int, size_x: int, size_y: int, k: int)
    requires
        size_y <= 0 || k <= 0,
    ensures
        ring_prefix(x, y, radius, size_x, size_y, k).len() == 0,
    decreases k,
{
    if k > 0 {
        lemma_ring_prefix_rows(x, y, radius, size_x, size_y, k - 1);
    }
}

/// The neighbours of a tile of a grid with at most `i32::MAX` tiles fit the
/// coordinate type.
pub proof fn lemma_tile_neighbours_fit(x: int, y: int, size_x: int, size_y: int)
    requires
        is_tile(x, y, size_x, size_y),
        size_x * size_y <= i32::MAX,
    ensures
        neighbours_fit(x, y, size_x),
{
    assert(size_x <= i32::MAX && size_y <= i32::MAX) by (nonlinear_arith)
        requires
            size_x * size_y <= i32::MAX,
            size_x > 0,
            size_y > 0,
    ;
}

impl HexType {
    /// The terrain that a roll selects: one of the first nine for the rolls
    /// 0 to 8, in the order of their declaration, and jungle for every other
    /// roll.
    pub open spec fn of_roll(roll: int) -> HexType {
        if roll == 0 {
            HexType::Field
        } else if roll == 1 {
            HexType::Forest
        } else if roll == 2 {
            HexType::Desert
        } else if roll == 3 {
            HexType::Tundra
        } else if roll == 4 {
            HexType::Water
        } else if roll == 5 {
            HexType::Ocean
        } else if roll == 6 {
            HexType::Mountain
        } else if roll == 7 {
            HexType::Impassable
        } else if roll == 8 {
            HexType::Ice
        } else {
            HexType::Jungle
        }
    }

    /// Executable `of_roll`.
    pub fn from_roll(roll: u64) -> (terrain: HexType)
        ensures
            terrain == HexType::of_roll(roll as int),
    {
        if roll == 0 {
            HexType::Field
        } else if roll == 1 {
            HexType::Forest
        } else if roll == 2 {
            HexType::Desert
        } else if roll == 3 {
            HexType::Tundra
        } else if roll == 4 {
            HexType::Water
        } else if roll == 5 {
            HexType::Ocean
        } else if roll == 6 {
            HexType::Mountain
        } else if roll == 7 {
            HexType::Impassable
        } else if roll == 8 {
            HexType::Ice
        } else {
            HexType::Jungle
        }
    }

    /// Draws one of the first nine terrains at random.
    pub fn sample(rng: &mut StdRng) -> (terrain: HexType)
        ensures
            exists|roll: int| 0 <= roll < 9 && terrain == #[trigger] HexType::of_roll(roll),
    {
        let roll: u64 = draw_below(rng, 9);
        HexType::from_roll(roll)
    }
}

impl Default for Hex {
    /// The tile at the origin with the default terrain.
    fn default() -> (hex: Hex)
        ensures
            hex.x == 0,
            hex.y == 0,
            hex.terrain_type == HexType::Water,
            hex.wf(),
    {
        Hex { x: 0, y: 0, terrain_type: HexType::Water, center_x: ONE / 2, center_y: RATIO / 2 }
    }
}

impl Hex {
    /// The centre is the one that belongs to the coordinates.
    pub open spec fn wf(&self) -> bool {
        &&& self.center_x == center_x_of(self.x as int, self.y as int)
        &&& self.center_y == center_y_of(self.y as int)
    }

    /// Creates the tile at the origin with the default terrain.
    pub fn new() -> (hex: Hex)
        ensures
            hex.x == 0,
            hex.y == 0,
            hex.terrain_type == HexType::Water,
            hex.wf(),
    {
        Hex::default()
    }

    /// Creates the tile at `(x, y)` with the default terrain.
    pub fn from_coords(x: i32, y: i32) -> (hex: Hex)
        ensures
            hex.x == x,
            hex.y == y,
            hex.terrain_type == HexType::Water,
            hex.wf(),
    {
        let shift: i64 = if y % 2 == 0 {
            ONE / 2
        } else {
            ONE
        };
        let center_x: i64 = ONE * (x as i64) + ONE * (half_of(y) as i64) + shift;
        let center_y: i64 = QUARTER_RATIO * (3 * (y as i64) + 2);
        Hex { x, y, terrain_type: HexType::Water, center_x, center_y }
    }

    /// The centre of the tile in pixel space.
    pub fn center(&self) -> (c: (i64, i64))
        ensures
            c == (self.center_x, self.center_y),
    {
        (self.center_x, self.center_y)
    }

    /// Grid distance between two coordinate pairs.
    pub fn distance_between(ax: i32, ay: i32, bx: i32, by: i32) -> (d: i64)
        ensures
            d == hex_distance(ax as int, ay as int, bx as int, by as int),
            d >= 0,
    {
        let dx: i64 = ax as i64 - bx as i64;
        let dy: i64 = ay as i64 - by as i64;
        let ds: i64 = dx + dy;
        let a: i64 = if dx < 0 {
            -dx
        } else {
            dx
        };
        let b: i64 = if ds < 0 {
            -ds
        } else {
            ds
        };
        let c: i64 = if dy < 0 {
            -dy
        } else {
            dy
        };
        (a + b + c) / 2
    }

    /// Grid distance to another tile.
    pub fn distance_to(&self, other: &Hex) -> (d: i32)
        requires
            hex_distance(self.x as int, self.y as int, other.x as int, other.y as int) <= i32::MAX,
        ensures
            d == hex_distance(self.x as int, self.y as int, other.x as int, other.y as int),
            d >= 0,
    {
        Hex::distance_between(self.x, self.y, other.x, other.y) as i32
    }

    /// Moves a column that lies outside row `y` by one grid width toward the
    /// row.
    pub fn unwrap_coords(x: i32, y: i32, size_x: u32) -> (r: (i32, i32))
        requires
            i32::MIN <= wrap_x(x as int, y as int, size_x as int) <= i32::MAX,
        ensures
            r.0 == wrap_x(x as int, y as int, size_x as int),
            r.1 == y,
    {
        (Hex::wrap_once(x as i64, y, size_x) as i32, y)
    }

    /// `wrap_x` on wide integers.
    fn wrap_once(x: i64, y: i32, size_x: u32) -> (r: i64)
        requires
            -0x1_0000_0000 <= x <= 0x1_0000_0000,
        ensures
            r == wrap_x(x as int, y as int, size_x as int),
    {
        let offset: i64 = half_of(y) as i64;
        let width: i64 = size_x as i64;
        if x < -offset {
            x + width
        } else if x >= width - offset {
            x - width
        } else {
            x
        }
    }

    /// The neighbour in direction `dir`.
    fn neighbour_at(&self, size_x: u32, dir: u8) -> (r: (i32, i32))
        requires
            dir < 6,
            neighbours_fit(self.x as int, self.y as int, size_x as int),
        ensures
            (r.0 as int, r.1 as int) == neighbour(self.x as int, self.y as int, size_x as int, dir as int),
    {
        let (dx, dy): (i64, i64) = if dir == 0 {
            (0, 1)
        } else if dir == 1 {
            (-1, 1)
        } else if dir == 2 {
            (-1, 0)
        } else if dir == 3 {
            (0, -1)
        } else if dir == 4 {
            (1, -1)
        } else {
            (1, 0)
        };
        assert(neighbour(self.x as int, self.y as int, size_x as int, dir as int).1 == self.y + dy);
        let ny: i32 = (self.y as i64 + dy) as i32;
        let nx: i64 = Hex::wrap_once(self.x as i64 + dx, ny, size_x);
        (nx as i32, ny)
    }

    /// Returns the coordinates of the tiles next to this one: up to six, of
    /// which the upper two are missing in the top row and the lower two in
    /// the bottom row.
    pub fn get_neighbours(&self, hexmap: &HexMap) -> (r: Vec<(i32, i32)>)
        requires
            neighbours_fit(self.x as int, self.y as int, hexmap.size_x as int),
        ensures
            coords(r@) == neighbours(
                self.x as int,
                self.y as int,
                hexmap.size_x as int,
                hexmap.size_y as int,
            ),
    {
        let mut found: Vec<(i32, i32)> = Vec::with_capacity(6);
        if self.y as i64 != hexmap.size_y as i64 - 1 {
            found.push(self.neighbour_at(hexmap.size_x, 0));
            found.push(self.neighbour_at(hexmap.size_x, 1));
        }
        found.push(self.neighbour_at(hexmap.size_x, 2));
        if self.y != 0 {
            found.push(self.neighbour_at(hexmap.size_x, 3));
            found.push(self.neighbour_at(hexmap.size_x, 4));
        }
        found.push(self.neighbour_at(hexmap.size_x, 5));
        assert(coords(found@) =~= neighbours(
            self.x as int,
            self.y as int,
            hexmap.size_x as int,
            hexmap.size_y as int,
        ));
        found
    }

    /// Returns the coordinates of all six tiles next to this one, whether or
    /// not their row belongs to the map.
    pub fn get_neighbours_unchecked(&self, hexmap: &HexMap) -> (r: Vec<(i32, i32)>)
        requires
            neighbours_fit(self.x as int, self.y as int, hexmap.size_x as int),
        ensures
            coords(r@) == neighbours_unchecked(self.x as int, self.y as int, hexmap.size_x as int),
    {
        let mut found: Vec<(i32, i32)> = Vec::with_capacity(6);
        found.push(self.neighbour_at(hexmap.size_x, 0));
        found.push(self.neighbour_at(hexmap.size_x, 1));
        found.push(self.neighbour_at(hexmap.size_x, 2));
        found.push(self.neighbour_at(hexmap.size_x, 3));
        found.push(self.neighbour_at(hexmap.size_x, 4));
        found.push(self.neighbour_at(hexmap.size_x, 5));
        assert(coords(found@) =~= neighbours_unchecked(
            self.x as int,
            self.y as int,
            hexmap.size_x as int,
        ));
        found
    }

    /// Offset of position `k` of the ring of radius `radius`.
    fn ring_offset_at(radius: u32, k: u64) -> (r: (i64, i64))
        requires
            radius > 0,
            k < 6 * radius,
        ensures
            (r.0 as int, r.1 as int) == ring_offset(radius as int, k as int),
            -radius <= r.0 <= radius,
            -radius <= r.1 <= radius,
    {
        proof {
            lemma_ring_offset_distance(radius as int, k as int);
        }
        let edge: u64 = k / (radius as u64);
        let step: i64 = (k % (radius as u64)) as i64;
        let reach: i64 = radius as i64;
        if edge == 0 {
            (reach, step - reach)
        } else if edge == 1 {
            (reach - step, step)
        } else if edge == 2 {
            (-step, reach)
        } else if edge == 3 {
            (-reach, reach - step)
        } else if edge == 4 {
            (step - reach, -step)
        } else {
            (step, -reach)
        }
    }

    /// Returns the ring of the given radius around this tile: the tiles that
    /// lie exactly `radius` steps away, in the order of a walk that starts
    /// `radius` steps to the top right and runs along the six edges. Tiles
    /// above the top row or below the bottom row are left out; columns wrap
    /// around.
    pub fn get_ring(&self, hexmap: &HexMap, radius: u32) -> (r: Vec<(i32, i32)>)
        requires
            hexmap.wf(),
            hexmap.size_x > 0,
        ensures
            coords(r@) == ring(
                self.x as int,
                self.y as int,
                radius as int,
                hexmap.size_x as int,
                hexmap.size_y as int,
            ),
            r@.len() <= 6 * radius,
            0 <= self.y - radius && self.y + radius < hexmap.size_y ==> r@.len() == 6 * radius,
            forall|j: int| 0 <= j < r@.len() ==> hexmap.has_tile(#[trigger] r@[j].0 as int, r@[j].1 as int),
    {
        let mut results: Vec<(i32, i32)> = Vec::new();
        if radius == 0 || hexmap.size_y == 0 {
            proof {
                lemma_ring_prefix_rows(
                    self.x as int,
                    self.y as int,
                    radius as int,
                    hexmap.size_x as int,
                    hexmap.size_y as int,
                    6 * radius,
                );
                assert(coords(results@) =~= ring(
                    self.x as int,
                    self.y as int,
                    radius as int,
                    hexmap.size_x as int,
                    hexmap.size_y as int,
                ));
            }
            return results;
        }
        assert(hexmap.size_x <= i32::MAX) by (nonlinear_arith)
            requires
                hexmap.size_x * hexmap.size_y <= i32::MAX,
                hexmap.size_y > 0,
        ;
        assert(hexmap.size_y <= i32::MAX) by (nonlinear_arith)
            requires
                hexmap.size_x * hexmap.size_y <= i32::MAX,
                hexmap.size_x > 0,
        ;
        let total: u64 = 6 * (radius as u64);
        let mut k: u64 = 0;
        while k < total
            invariant
                k <= total,
                total == 6 * radius,
                radius > 0,
                0 < hexmap.size_x <= i32::MAX,
                hexmap.size_y <= i32::MAX,
                coords(results@) == ring_prefix(
                    self.x as int,
                    self.y as int,
                    radius as int,
                    hexmap.size_x as int,
                    hexmap.size_y as int,
                    k as int,
                ),
            decreases total - k,
        {
            let (dx, dy) = Hex::ring_offset_at(radius, k);
            let px: i64 = self.x as i64 + dx;
            let py: i64 = self.y as i64 + dy;
            if 0 <= py && py < hexmap.size_y as i64 {
                let tile = Hex::wrap_coords(px, py as i32, hexmap.size_x);
                results.push(tile);
                assert(coords(results@) =~= ring_prefix(
                    self.x as int,
                    self.y as int,
                    radius as int,
                    hexmap.size_x as int,
                    hexmap.size_y as int,
                    k as int,
                ).push((tile.0 as int, tile.1 as int)));
            }
            k += 1;
        }
        proof {
            lemma_ring_cardinality(
                self.x as int,
                self.y as int,
                radius as int,
                hexmap.size_x as int,
                hexmap.size_y as int,
            );
            assert forall|j: int| 0 <= j < results@.len() implies hexmap.has_tile(
                #[trigger] results@[j].0 as int,
                results@[j].1 as int,
            ) by {
                lemma_ring_prefix_tiles(
                    self.x as int,
                    self.y as int,
                    radius as int,
                    hexmap.size_x as int,
                    hexmap.size_y as int,
                    6 * radius,
                    j,
                );
                assert(coords(results@)[j] == (results@[j].0 as int, results@[j].1 as int));
            }
        }
        results
    }

    /// Returns the rings of radius 1 to `radius` around this tile, one after
    /// the other.
    pub fn get_spiral(&self, hexmap: &HexMap, radius: u32) -> (r: Vec<(i32, i32)>)
        requires
            hexmap.wf(),
            hexmap.size_x > 0,
        ensures
            coords(r@) == spiral(
                self.x as int,
                self.y as int,
                radius as int,
                hexmap.size_x as int,
                hexmap.size_y as int,
            ),
            forall|j: int| 0 <= j < r@.len() ==> hexmap.has_tile(#[trigger] r@[j].0 as int, r@[j].1 as int),
    {
        let mut results: Vec<(i32, i32)> = Vec::new();
        let mut done: u32 = 0;
        while done < radius
            invariant
                done <= radius,
                hexmap.wf(),
                hexmap.size_x > 0,
                coords(results@) == spiral(
                    self.x as int,
                    self.y as int,
                    done as int,
                    hexmap.size_x as int,
                    hexmap.size_y as int,
                ),
                forall|j: int|
                    0 <= j < results@.len() ==> hexmap.has_tile(
                        #[trigger] results@[j].0 as int,
                        results@[j].1 as int,
                    ),
            decreases radius - done,
        {
            done += 1;
            let ring_tiles = self.get_ring(hexmap, done);
            let ghost before = results@;
            let mut j: usize = 0;
            while j < ring_tiles.len()
                invariant
                    j <= ring_tiles@.len(),
                    results@ == before + ring_tiles@.subrange(0, j as int),
                decreases ring_tiles@.len() - j,
            {
                results.push(ring_tiles[j]);
                j += 1;
                assert(results@ =~= before + ring_tiles@.subrange(0, j as int));
            }
            assert(ring_tiles@.subrange(0, j as int) =~= ring_tiles@);
            assert(coords(results@) =~= coords(before) + coords(ring_tiles@));
        }
        results
    }

    /// The column of row `y` that `x` names on the cylinder.
    pub fn wrap_coords(x: i64, y: i32, size_x: u32) -> (r: (i32, i32))
        requires
            size_x > 0,
            size_x <= i32::MAX,
            y >= 0,
            -0x4000_0000_0000_0000 <= x <= 0x4000_0000_0000_0000,
        ensures
            r.0 == normalize_x(x as int, y as int, size_x as int),
            r.1 == y,
            -half(y as int) <= r.0 < size_x - half(y as int),
    {
        let offset: i64 = half_of(y) as i64;
        let width: i64 = size_x as i64;
        let shifted: i64 = x + offset;
        let rem: i64 = shifted % width;
        let column: i64 = if rem < 0 {
            rem + width
        } else {
            rem
        };
        assert(column == (shifted as int) % (width as int)) by {
            let w = width as int;
            if shifted >= 0 {
                vstd::arithmetic::div_mod::lemma_mod_pos_bound(shifted as int, w);
            } else {
                let n = -(shifted as int);
                let q = n / w;
                let m = n % w;
                vstd::arithmetic::div_mod::lemma_fundamental_div_mod(n, w);
                vstd::arithmetic::div_mod::lemma_mod_pos_bound(n, w);
                assert(rem == -m);
                if m == 0 {
                    assert(shifted == (-q) * w + 0) by (nonlinear_arith)
                        requires
                            -shifted == w * q + 0,
                    ;
                    vstd::arithmetic::div_mod::lemma_fundamental_div_mod_converse(
                        shifted as int,
                        w,
                        -q,
                        0,
                    );
                } else {
                    assert(shifted == (-q - 1) * w + (w - m)) by (nonlinear_arith)
                        requires
                            -shifted == w * q + m,
                    ;
                    vstd::arithmetic::div_mod::lemma_fundamental_div_mod_converse(
                        shifted as int,
                        w,
                        -q - 1,
                        w - m,
                    );
                }
            }
        }
        ((column - offset) as i32, y)
    }
}

} // verus!
