//! The decorator pass: the climate of the land, and the moisture that the
//! wind brings from the sea.

use vstd::prelude::*;
use crate::fixed::{norm, norm_of, stretch, stretch_of, ONE};
use crate::generators::islands::ice::{edge_closeness, edge_closeness_of};
use crate::generators::islands::{Islands, NoiseSamples};
use crate::generators::seed_to_rng_seed;
use crate::hex::{Hex, HexType};
use crate::hexmap::{absolute_height, center_x_at, center_y_at, nearest_tile, HexMap};
use crate::rng::{draw_below, rng_from_seed};
use rand::rngs::StdRng;

verus! {

/// Temperature of a tile, multiplied by the map's height and a million: 70
/// degrees at the middle of the map and -20 at its top and bottom, raised by
/// five times the noise sample.
pub open spec fn temperature_scaled(center_y: int, height: int, sample: int) -> int {
    70_000_000 * edge_closeness(center_y, height) + 5 * sample * height - 20_000_000 * height
}

/// Terrain of land by its temperature: tundra below -5 degrees, forest
/// between -5 and 25, desert above 35, fields elsewhere and wherever the
/// noise sample is -0.6 or less.
pub open spec fn climate_terrain(center_y: int, height: int, sample: int) -> HexType {
    let scaled = temperature_scaled(center_y, height, sample);
    if scaled < -5_000_000 * height {
        HexType::Tundra
    } else if scaled > -5_000_000 * height && scaled < 25_000_000 * height && sample > -600_000 {
        HexType::Forest
    } else if scaled > 35_000_000 * height && sample > -600_000 {
        HexType::Desert
    } else {
        HexType::Field
    }
}

/// The terrain after the land got its climate: a field becomes a mountain
/// where its roll is below 0.04, and the terrain of its temperature
/// elsewhere.
pub open spec fn painted(
    types: Seq<HexType>,
    rolls: Seq<u32>,
    climate: Seq<i32>,
    size_x: int,
    size_y: int,
) -> Seq<HexType> {
    Seq::new(
        types.len(),
        |i: int|
            if types[i] == HexType::Field {
                if rolls[i] < 40_000 {
                    HexType::Mountain
                } else {
                    climate_terrain(center_y_at(i, size_x), absolute_height(size_y), climate[i] as int)
                }
            } else {
                types[i]
            },
    )
}

/// Distance that the wind carries moisture: a fifth of the mean of the two
/// dimensions.
pub open spec fn wind_reach(size_x: int, size_y: int) -> int {
    ((size_x + size_y) / 2) * 200_000
}

/// The point from which the wind reaches the tile at index `i`.
pub open spec fn wind_target(i: int, wind_x: int, wind_y: int, size_x: int, size_y: int) -> (int, int) {
    (
        center_x_at(i, size_x) + stretch(wind_x, wind_reach(size_x, size_y), norm(wind_x, wind_y)),
        center_y_at(i, size_x) + stretch(wind_y, wind_reach(size_x, size_y), norm(wind_x, wind_y)),
    )
}

/// Water of either kind.
pub open spec fn is_wet(terrain: HexType) -> bool {
    terrain == HexType::Water || terrain == HexType::Ocean
}

/// The terrain after the wind brought moisture: a desert becomes jungle
/// where the tile nearest to its wind target is water.
pub open spec fn moistened(
    types: Seq<HexType>,
    wind_x: Seq<i32>,
    wind_y: Seq<i32>,
    size_x: int,
    size_y: int,
) -> Seq<HexType> {
    Seq::new(
        types.len(),
        |i: int|
            if types[i] == HexType::Desert && is_wet(
                types[nearest_tile(
                    size_x,
                    size_y,
                    wind_target(i, wind_x[i] as int, wind_y[i] as int, size_x, size_y).0,
                    wind_target(i, wind_x[i] as int, wind_y[i] as int, size_x, size_y).1,
                )],
            ) {
                HexType::Jungle
            } else {
                types[i]
            },
    )
}

/// The terrain after the decorator pass.
pub open spec fn decorator_pass_result(
    types: Seq<HexType>,
    rolls: Seq<u32>,
    noise: &NoiseSamples,
    size_x: int,
    size_y: int,
) -> Seq<HexType> {
    moistened(
        painted(types, rolls, noise.climate@, size_x, size_y),
        noise.wind_x@,
        noise.wind_y@,
        size_x,
        size_y,
    )
}

/// Executable `climate_terrain`.
pub fn climate_of(center_y: i64, height: i64, sample: i32) -> (terrain: HexType)
    ensures
        terrain == climate_terrain(center_y as int, height as int, sample as int),
{
    let closeness: i128 = edge_closeness_of(center_y, height);
    assert(-0x8000_0000 * 0x8000_0000_0000_0000 <= sample * height <= 0x8000_0000
        * 0x8000_0000_0000_0000) by (nonlinear_arith)
        requires
            -0x8000_0000 <= sample <= 0x8000_0000,
            -0x8000_0000_0000_0000 <= height <= 0x8000_0000_0000_0000,
    ;
    assert(5 * (sample * height) == 5 * sample * height) by (nonlinear_arith);
    let tall: i128 = height as i128;
    let scaled: i128 = 70_000_000 * closeness + 5 * ((sample as i128) * tall) - 20_000_000 * tall;
    let cold: i128 = 0 - 5_000_000 * tall;
    let mild: i128 = 25_000_000 * tall;
    let hot: i128 = 35_000_000 * tall;
    if scaled < cold {
        HexType::Tundra
    } else if scaled > cold && scaled < mild && sample > -600_000 {
        HexType::Forest
    } else if scaled > hot && sample > -600_000 {
        HexType::Desert
    } else {
        HexType::Field
    }
}

impl Islands {
    /// Draws a roll between 0 and 1 for every field of the map, in storage
    /// order; other tiles get the roll 0.
    pub fn draw_rolls(hex_map: &HexMap, rng: &mut StdRng) -> (rolls: Vec<u32>)
        ensures
            rolls@.len() == hex_map.field@.len(),
            forall|i: int| 0 <= i < rolls@.len() ==> rolls@[i] < ONE,
            forall|i: int|
                0 <= i < rolls@.len() && hex_map.field@[i].terrain_type != HexType::Field ==> rolls@[i]
                    == 0,
    {
        let mut rolls: Vec<u32> = Vec::new();
        let mut i: usize = 0;
        while i < hex_map.field.len()
            invariant
                i <= hex_map.field@.len(),
                rolls@.len() == i,
                forall|j: int| 0 <= j < i ==> rolls@[j] < ONE,
                forall|j: int|
                    0 <= j < i && hex_map.field@[j].terrain_type != HexType::Field ==> rolls@[j] == 0,
            decreases hex_map.field@.len() - i,
        {
            if hex_map.field[i].terrain_type == HexType::Field {
                rolls.push(draw_below(rng, 1_000_000) as u32);
            } else {
                rolls.push(0);
            }
            i += 1;
        }
        rolls
    }

    /// Gives land its climate: every field becomes a mountain where its roll
    /// is below 0.04, and the terrain of its temperature elsewhere.
    pub fn paint_climate(hex_map: &mut HexMap, climate: &Vec<i32>, rolls: &Vec<u32>)
        requires
            old(hex_map).wf(),
            climate@.len() == old(hex_map).field@.len(),
            rolls@.len() == old(hex_map).field@.len(),
        ensures
            final(hex_map).is_retyping_of(
                old(hex_map),
                painted(
                    old(hex_map).types(),
                    rolls@,
                    climate@,
                    old(hex_map).size_x as int,
                    old(hex_map).size_y as int,
                ),
            ),
            final(hex_map).wf(),
            final(hex_map).types() == painted(
                old(hex_map).types(),
                rolls@,
                climate@,
                old(hex_map).size_x as int,
                old(hex_map).size_y as int,
            ),
    {
        let ghost size_x = hex_map.size_x as int;
        let ghost size_y = hex_map.size_y as int;
        let height: i64 = hex_map.absolute_size_y;
        let mut next: Vec<HexType> = Vec::new();
        let mut i: usize = 0;
        while i < hex_map.field.len()
            invariant
                i <= hex_map.field@.len(),
                hex_map.wf(),
                size_x == hex_map.size_x,
                size_y == hex_map.size_y,
                height == hex_map.absolute_size_y,
                climate@.len() == hex_map.field@.len(),
                rolls@.len() == hex_map.field@.len(),
                next@.len() == i,
                forall|j: int|
                    0 <= j < i ==> next@[j] == painted(hex_map.types(), rolls@, climate@, size_x, size_y)[j],
            decreases hex_map.field@.len() - i,
        {
            proof {
                hex_map.lemma_center_bounds(i as int);
            }
            let hex: Hex = hex_map.field[i];
            assert(hex.center_y == center_y_at(i as int, size_x));
            if hex.terrain_type == HexType::Field {
                if rolls[i] < 40_000 {
                    next.push(HexType::Mountain);
                } else {
                    next.push(climate_of(hex.center_y, height, climate[i]));
                }
            } else {
                next.push(hex.terrain_type);
            }
            i += 1;
        }
        assert(next@ =~= painted(hex_map.types(), rolls@, climate@, size_x, size_y));
        hex_map.retype(&next);
    }

    /// Lets the wind bring moisture: every desert becomes jungle where the
    /// tile nearest to the point the wind comes from is water.
    pub fn moisten(hex_map: &mut HexMap, wind_x: &Vec<i32>, wind_y: &Vec<i32>)
        requires
            old(hex_map).wf(),
            wind_x@.len() == old(hex_map).field@.len(),
            wind_y@.len() == old(hex_map).field@.len(),
        ensures
            final(hex_map).is_retyping_of(
                old(hex_map),
                moistened(
                    old(hex_map).types(),
                    wind_x@,
                    wind_y@,
                    old(hex_map).size_x as int,
                    old(hex_map).size_y as int,
                ),
            ),
            final(hex_map).wf(),
            final(hex_map).types() == moistened(
                old(hex_map).types(),
                wind_x@,
                wind_y@,
                old(hex_map).size_x as int,
                old(hex_map).size_y as int,
            ),
    {
        let ghost size_x = hex_map.size_x as int;
        let ghost size_y = hex_map.size_y as int;
        let reach: u64 = (hex_map.get_avg_size() as u64) * 200_000;
        let mut next: Vec<HexType> = Vec::new();
        let mut i: usize = 0;
        while i < hex_map.field.len()
            invariant
                i <= hex_map.field@.len(),
                hex_map.wf(),
                size_x == hex_map.size_x,
                size_y == hex_map.size_y,
                reach == wind_reach(size_x, size_y),
                wind_x@.len() == hex_map.field@.len(),
                wind_y@.len() == hex_map.field@.len(),
                next@.len() == i,
                forall|j: int|
                    0 <= j < i ==> next@[j] == moistened(hex_map.types(), wind_x@, wind_y@, size_x, size_y)[j],
            decreases hex_map.field@.len() - i,
        {
            proof {
                hex_map.lemma_center_bounds(i as int);
            }
            let hex: Hex = hex_map.field[i];
            assert(hex.center_x == center_x_at(i as int, size_x));
            assert(hex.center_y == center_y_at(i as int, size_x));
            let mut terrain: HexType = hex.terrain_type;
            if terrain == HexType::Desert {
                let blow_x: i64 = wind_x[i] as i64;
                let blow_y: i64 = wind_y[i] as i64;
                let far: u64 = norm_of(blow_x, blow_y);
                let target_x: i64 = hex.center_x + stretch_of(blow_x, reach, far);
                let target_y: i64 = hex.center_y + stretch_of(blow_y, reach, far);
                let source: usize = hex_map.get_closest_hex_index(target_x, target_y);
                proof {
                    hex_map.lemma_closest_is_nearest(target_x as int, target_y as int, source as int);
                }
                let upwind: HexType = hex_map.field[source].terrain_type;
                if upwind == HexType::Water || upwind == HexType::Ocean {
                    terrain = HexType::Jungle;
                }
            }
            next.push(terrain);
            i += 1;
        }
        assert(next@ =~= moistened(hex_map.types(), wind_x@, wind_y@, size_x, size_y));
        hex_map.retype(&next);
    }

    /// Turns fields into mountains, tundra, forest and desert, and deserts
    /// that get moisture from the sea into jungle. Returns the rolls that
    /// were drawn for the fields.
    pub fn decorator_pass(hex_map: &mut HexMap, noise: &NoiseSamples, seed: u32) -> (rolls: Vec<u32>)
        requires
            old(hex_map).wf(),
            noise.fits(old(hex_map).field@.len() as int),
        ensures
            rolls@.len() == old(hex_map).field@.len(),
            forall|i: int| 0 <= i < rolls@.len() ==> rolls@[i] < ONE,
            final(hex_map).is_retyping_of(
                old(hex_map),
                decorator_pass_result(
                    old(hex_map).types(),
                    rolls@,
                    noise,
                    old(hex_map).size_x as int,
                    old(hex_map).size_y as int,
                ),
            ),
            final(hex_map).wf(),
    {
        let mut rng = rng_from_seed(seed_to_rng_seed(seed));
        let rolls = Islands::draw_rolls(hex_map, &mut rng);
        Islands::paint_climate(hex_map, &noise.climate, &rolls);
        let ghost middle = *hex_map;
        Islands::moisten(hex_map, &noise.wind_x, &noise.wind_y);
        proof {
            hex_map.lemma_retyping_chain(&middle, old(hex_map), hex_map.types());
        }
        rolls
    }
}

} // verus!
