//! The ocean pass: water along the coast.

use vstd::prelude::*;
use crate::fixed::abs;
use crate::generators::islands::Islands;
use crate::generators::{clear_pass, cleared, snapshot_types};
use crate::hex::{Hex, HexType};
use crate::hexmap::{coords_of, lemma_index_roundtrip, tile_distance, HexMap};

verus! {

/// Land is everything but water, ocean and ice.
pub open spec fn is_land(terrain: HexType) -> bool {
    terrain != HexType::Water && terrain != HexType::Ice && terrain != HexType::Ocean
}

/// The map has land.
pub open spec fn has_land(types: Seq<HexType>) -> bool {
    exists|i: int| 0 <= i < types.len() && is_land(#[trigger] types[i])
}

/// The tile at index `j` is land in a row at most `rows` away from the tile
/// at index `i`.
pub open spec fn is_land_in_rows(types: Seq<HexType>, i: int, j: int, rows: int, size_x: int) -> bool {
    0 <= j < types.len() && is_land(types[j]) && abs(
        coords_of(j, size_x).1 - coords_of(i, size_x).1,
    ) <= rows
}

/// There is land within `reach` steps of the tile at index `i`, in a row
/// at most `rows` away.
pub open spec fn near_land(types: Seq<HexType>, i: int, reach: int, rows: int, size_x: int) -> bool {
    exists|j: int| #[trigger]
        is_land_in_rows(types, i, j, rows, size_x) && tile_distance(i, j, size_x) <= reach
}

/// The terrain after the coast was flooded: ocean becomes water where land
/// is within the ocean distance and the noise sample is at least 0.14, and
/// wherever land is one step away. Only land in rows within the ocean
/// distance counts.
pub open spec fn flooded(types: Seq<HexType>, noise: Seq<i32>, ocean_distance: int, size_x: int) -> Seq<
    HexType,
> {
    Seq::new(
        types.len(),
        |i: int|
            if types[i] == HexType::Ocean && ((noise[i] >= 140_000 && near_land(
                types,
                i,
                ocean_distance,
                ocean_distance,
                size_x,
            )) || near_land(types, i, 1, ocean_distance, size_x)) {
                HexType::Water
            } else {
                types[i]
            },
    )
}

/// The terrain after the ocean pass: nothing changes on a map without land;
/// elsewhere the coast is flooded and speckles of ocean in the water are
/// cleaned up.
pub open spec fn ocean_pass_result(
    types: Seq<HexType>,
    noise: Seq<i32>,
    ocean_distance: int,
    size_x: int,
    size_y: int,
) -> Seq<HexType> {
    if has_land(types) {
        cleared(
            flooded(types, noise, ocean_distance, size_x),
            size_x,
            size_y,
            HexType::Ocean,
            HexType::Water,
            3,
        )
    } else {
        types
    }
}

/// Land within a reach is land within every longer reach.
proof fn lemma_near_land_grows(
    types: Seq<HexType>,
    i: int,
    reach: int,
    longer: int,
    rows: int,
    size_x: int,
)
    requires
        reach <= longer,
        near_land(types, i, reach, rows, size_x),
    ensures
        near_land(types, i, longer, rows, size_x),
{
    let j = choose|j: int| #[trigger]
        is_land_in_rows(types, i, j, rows, size_x) && tile_distance(i, j, size_x) <= reach;
    assert(is_land_in_rows(types, i, j, rows, size_x) && tile_distance(i, j, size_x) <= longer);
}

impl Islands {
    /// Tells whether the terrain holds land.
    pub fn any_land(types: &Vec<HexType>) -> (found: bool)
        ensures
            found == has_land(types@),
    {
        let mut i: usize = 0;
        while i < types.len()
            invariant
                i <= types@.len(),
                forall|j: int| 0 <= j < i ==> !is_land(#[trigger] types@[j]),
            decreases types@.len() - i,
        {
            let terrain: HexType = types[i];
            if terrain != HexType::Water && terrain != HexType::Ice && terrain != HexType::Ocean {
                return true;
            }
            i += 1;
        }
        false
    }

    /// Finds the distance from the tile at `tile` to the nearest land in a
    /// row at most `rows` away, if there is such land.
    pub fn nearest_land(hex_map: &HexMap, types: &Vec<HexType>, tile: usize, rows: u32) -> (found: Option<
        i64,
    >)
        requires
            hex_map.wf(),
            types@.len() == hex_map.field@.len(),
            tile < hex_map.field@.len(),
        ensures
            match found {
                Some(dist) => near_land(
                    types@,
                    tile as int,
                    dist as int,
                    rows as int,
                    hex_map.size_x as int,
                ) && !near_land(types@, tile as int, dist - 1, rows as int, hex_map.size_x as int),
                None => forall|reach: int|
                    !near_land(types@, tile as int, reach, rows as int, hex_map.size_x as int),
            },
    {
        let ghost size_x = hex_map.size_x as int;
        let ghost size_y = hex_map.size_y as int;
        proof {
            hex_map.lemma_center_bounds(tile as int);
        }
        let here: Hex = hex_map.field[tile];
        let width: usize = hex_map.size_x as usize;
        let top: i64 = here.y as i64 - rows as i64;
        let bottom: i64 = here.y as i64 + rows as i64;
        let first_row: usize = if top < 0 {
            0
        } else {
            top as usize
        };
        let last_row: usize = if bottom >= hex_map.size_y as i64 {
            (hex_map.size_y - 1) as usize
        } else {
            bottom as usize
        };
        assert(first_row * width <= (last_row + 1) * width <= size_x * size_y) by (nonlinear_arith)
            requires
                first_row <= last_row < size_y,
                width == size_x,
                0 <= width,
        ;
        let start: usize = first_row * width;
        let end: usize = (last_row + 1) * width;
        let mut best: Option<i64> = None;
        let mut j: usize = start;
        while j < end
            invariant
                start <= j <= end <= hex_map.field@.len(),
                hex_map.wf(),
                size_x == hex_map.size_x,
                types@.len() == hex_map.field@.len(),
                tile < hex_map.field@.len(),
                here == hex_map.field@[tile as int],
                forall|m: int|
                    start <= m < j && #[trigger] is_land_in_rows(types@, tile as int, m, rows as int, size_x)
                        ==> match best {
                        Some(dist) => tile_distance(tile as int, m, size_x) >= dist,
                        None => false,
                    },
                match best {
                    Some(dist) => exists|m: int|
                        start <= m < j && #[trigger] is_land_in_rows(
                            types@,
                            tile as int,
                            m,
                            rows as int,
                            size_x,
                        ) && tile_distance(tile as int, m, size_x) == dist,
                    None => true,
                },
            decreases end - j,
        {
            let other: Hex = hex_map.field[j];
            let terrain: HexType = types[j];
            let apart: i64 = other.y as i64 - here.y as i64;
            let in_rows: bool = -(rows as i64) <= apart && apart <= rows as i64;
            let land: bool = terrain != HexType::Water && terrain != HexType::Ice && terrain
                != HexType::Ocean;
            proof {
                assert(other.y == coords_of(j as int, size_x).1);
                assert(other.x == coords_of(j as int, size_x).0);
                assert(here.y == coords_of(tile as int, size_x).1);
                assert(here.x == coords_of(tile as int, size_x).0);
                assert((land && in_rows) == is_land_in_rows(types@, tile as int, j as int, rows as int, size_x));
            }
            if land && in_rows {
                let dist: i64 = Hex::distance_between(here.x, here.y, other.x, other.y);
                assert(dist == tile_distance(tile as int, j as int, size_x));
                match best {
                    Some(least) => {
                        if dist < least {
                            best = Some(dist);
                        } else {
                            proof {
                                let m = choose|m: int|
                                    start <= m < j && #[trigger] is_land_in_rows(
                                        types@,
                                        tile as int,
                                        m,
                                        rows as int,
                                        size_x,
                                    ) && tile_distance(tile as int, m, size_x) == least;
                                assert(start <= m < j + 1);
                            }
                        }
                    },
                    None => {
                        best = Some(dist);
                    },
                }
            } else {
                proof {
                    match best {
                        Some(least) => {
                            let m = choose|m: int|
                                start <= m < j && #[trigger] is_land_in_rows(
                                    types@,
                                    tile as int,
                                    m,
                                    rows as int,
                                    size_x,
                                ) && tile_distance(tile as int, m, size_x) == least;
                            assert(start <= m < j + 1);
                        },
                        None => {},
                    }
                }
            }
            j += 1;
        }
        proof {
            // land in the rows of the window lies in the range that was scanned
            assert forall|m: int| #[trigger]
                is_land_in_rows(types@, tile as int, m, rows as int, size_x) implies start <= m
                < end by {
                lemma_index_roundtrip(m, size_x, size_y);
                let row = coords_of(m, size_x).1;
                vstd::arithmetic::div_mod::lemma_fundamental_div_mod(m, size_x);
                vstd::arithmetic::div_mod::lemma_mod_pos_bound(m, size_x);
                assert(first_row <= row <= last_row);
                assert(first_row * width <= m < (last_row + 1) * width) by (nonlinear_arith)
                    requires
                        m == size_x * row + m % size_x,
                        0 <= m % size_x < size_x,
                        first_row <= row <= last_row,
                        width == size_x,
                ;
            }
            match best {
                Some(dist) => {
                    let m = choose|m: int|
                        start <= m < j && #[trigger] is_land_in_rows(
                            types@,
                            tile as int,
                            m,
                            rows as int,
                            size_x,
                        ) && tile_distance(tile as int, m, size_x) == dist;
                    assert(near_land(types@, tile as int, dist as int, rows as int, size_x));
                    if near_land(types@, tile as int, dist - 1, rows as int, size_x) {
                        let n = choose|n: int| #[trigger]
                            is_land_in_rows(types@, tile as int, n, rows as int, size_x)
                                && tile_distance(tile as int, n, size_x) <= dist - 1;
                        assert(start <= n < end);
                    }
                },
                None => {
                    assert forall|reach: int|
                        !near_land(types@, tile as int, reach, rows as int, size_x) by {
                        if near_land(types@, tile as int, reach, rows as int, size_x) {
                            let n = choose|n: int| #[trigger]
                                is_land_in_rows(types@, tile as int, n, rows as int, size_x)
                                    && tile_distance(tile as int, n, size_x) <= reach;
                            assert(start <= n < end);
                        }
                    }
                },
            }
        }
        best
    }

    /// Generates coastal water: ocean becomes water where land is within
    /// the ocean distance and the noise sample is at least 0.14, and
    /// wherever land is one step away; one round of cleanup follows. A map
    /// without land is left as it is.
    pub fn ocean_pass(&self, hex_map: &mut HexMap, noise: &Vec<i32>)
        requires
            old(hex_map).wf(),
            noise@.len() == old(hex_map).field@.len(),
        ensures
            final(hex_map).is_retyping_of(
                old(hex_map),
                ocean_pass_result(
                    old(hex_map).types(),
                    noise@,
                    self.ocean_distance as int,
                    old(hex_map).size_x as int,
                    old(hex_map).size_y as int,
                ),
            ),
            final(hex_map).wf(),
    {
        let ghost size_x = hex_map.size_x as int;
        let ghost size_y = hex_map.size_y as int;
        let before = snapshot_types(hex_map);
        if !Islands::any_land(&before) {
            proof {
                assert(hex_map.is_retyping_of(old(hex_map), old(hex_map).types()));
            }
            return;
        }
        let reach: i64 = self.ocean_distance as i64;
        let mut next: Vec<HexType> = Vec::new();
        let mut i: usize = 0;
        while i < hex_map.field.len()
            invariant
                i <= hex_map.field@.len(),
                hex_map.wf(),
                *hex_map == *old(hex_map),
                size_x == hex_map.size_x,
                before@ == hex_map.types(),
                noise@.len() == hex_map.field@.len(),
                reach == self.ocean_distance,
                next@.len() == i,
                forall|j: int|
                    0 <= j < i ==> next@[j] == flooded(before@, noise@, reach as int, size_x)[j],
            decreases hex_map.field@.len() - i,
        {
            let mut terrain: HexType = before[i];
            if terrain == HexType::Ocean {
                let found = Islands::nearest_land(hex_map, &before, i, self.ocean_distance);
                match found {
                    Some(dist) => {
                        proof {
                            if dist <= reach {
                                lemma_near_land_grows(before@, i as int, dist as int, reach as int, reach as int, size_x);
                            } else if near_land(before@, i as int, reach as int, reach as int, size_x) {
                                lemma_near_land_grows(before@, i as int, reach as int, dist - 1, reach as int, size_x);
                            }
                            if dist <= 1 {
                                lemma_near_land_grows(before@, i as int, dist as int, 1, reach as int, size_x);
                            } else if near_land(before@, i as int, 1, reach as int, size_x) {
                                lemma_near_land_grows(before@, i as int, 1, dist - 1, reach as int, size_x);
                            }
                        }
                        if (dist <= reach && noise[i] >= 140_000) || dist <= 1 {
                            terrain = HexType::Water;
                        }
                    },
                    None => {},
                }
            }
            next.push(terrain);
            i += 1;
        }
        assert(next@ =~= flooded(before@, noise@, reach as int, size_x));
        hex_map.retype(&next);
        let ghost middle = *hex_map;
        clear_pass(hex_map, HexType::Ocean, HexType::Water, 3);
        proof {
            let target = ocean_pass_result(before@, noise@, reach as int, size_x, size_y);
            hex_map.lemma_retyping_chain(&middle, old(hex_map), target);
        }
    }
}

} // verus!
