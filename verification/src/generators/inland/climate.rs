//! Climate of the regions and its classification by the nearest terrain
//! archetype.

use vstd::prelude::*;
use crate::fixed::{abs, abs_diff, clamp_unit, div_toward_zero, ONE};
use crate::generators::inland::growth::Region;
use crate::generators::inland::Inland;
use crate::hex::HexType;
use crate::hexmap::HexMap;

verus! {

/// Payload of the diagnostic terrain that marks a region centre.
pub const CENTER_MARK: i32 = 100_000;

/// Number of archetypes.
pub const ARCHETYPES: usize = 10;

/// The terrain archetypes with their place in climate space: terrain,
/// temperature, flatness and humidity, the last three in millionths.
pub open spec fn archetype(k: int) -> (HexType, int, int, int) {
    if k == 0 {
        (HexType::Field, 600_000, 400_000, 500_000)
    } else if k == 1 {
        (HexType::Forest, 400_000, 600_000, 500_000)
    } else if k == 2 {
        (HexType::Desert, 800_000, 400_000, 100_000)
    } else if k == 3 {
        (HexType::Tundra, 200_000, 500_000, 500_000)
    } else if k == 4 {
        (HexType::Water, 500_000, 500_000, 1_000_000)
    } else if k == 5 {
        (HexType::Mountain, 500_000, 1_000_000, 500_000)
    } else if k == 6 {
        (HexType::Ice, 0, 500_000, 500_000)
    } else if k == 7 {
        (HexType::Jungle, 800_000, 500_000, 800_000)
    } else if k == 8 {
        (HexType::Swamp, 500_000, 500_000, 950_000)
    } else {
        (HexType::Grassland, 450_000, 600_000, 500_000)
    }
}

/// The terrain is that of an archetype.
pub open spec fn is_archetype(terrain: HexType) -> bool {
    exists|k: int| 0 <= k < ARCHETYPES && archetype(k).0 == terrain
}

/// Square of the distance in climate space between archetype `k` and the
/// given climate.
pub open spec fn archetype_distance(k: int, temp: int, flat: int, hum: int) -> int {
    (archetype(k).1 - temp) * (archetype(k).1 - temp) + (archetype(k).2 - flat) * (archetype(k).2
        - flat) + (archetype(k).3 - hum) * (archetype(k).3 - hum)
}

/// The first of the archetypes below `n` that is nearest to the given
/// climate.
pub open spec fn nearest_below(n: int, temp: int, flat: int, hum: int) -> int
    decreases n,
{
    if n <= 1 {
        0
    } else {
        let best = nearest_below(n - 1, temp, flat, hum);
        if archetype_distance(n - 1, temp, flat, hum) < archetype_distance(best, temp, flat, hum) {
            n - 1
        } else {
            best
        }
    }
}

/// The terrain of the archetype that is nearest to the given climate, the
/// first such archetype where several are equally near.
pub open spec fn classify(temp: int, flat: int, hum: int) -> HexType {
    archetype(nearest_below(ARCHETYPES as int, temp, flat, hum)).0
}

/// `nearest_below` names an archetype that is at least as near as every
/// archetype below `n`, and nearer than those before it.
pub proof fn lemma_nearest_below(n: int, temp: int, flat: int, hum: int)
    requires
        1 <= n,
    ensures
        0 <= nearest_below(n, temp, flat, hum) < n,
        forall|j: int|
            0 <= j < n ==> archetype_distance(nearest_below(n, temp, flat, hum), temp, flat, hum)
                <= #[trigger] archetype_distance(j, temp, flat, hum),
        forall|j: int|
            0 <= j < nearest_below(n, temp, flat, hum) ==> archetype_distance(
                nearest_below(n, temp, flat, hum),
                temp,
                flat,
                hum,
            ) < #[trigger] archetype_distance(j, temp, flat, hum),
    decreases n,
{
    if n > 1 {
        lemma_nearest_below(n - 1, temp, flat, hum);
    }
}

/// Every climate is classified as one of the archetypes.
pub proof fn lemma_classify_is_archetype(temp: int, flat: int, hum: int)
    ensures
        is_archetype(classify(temp, flat, hum)),
{
    lemma_nearest_below(ARCHETYPES as int, temp, flat, hum);
}

/// Temperature of a region: the setting, lowered toward the top and bottom
/// of the map by up to three tenths, and moved by a tenth of the jitter;
/// held between 0 and 1.
pub open spec fn region_temperature(base: int, center_y: int, absolute_size_y: int, jitter: int) -> int {
    clamp_unit(
        div_toward_zero(jitter, 10) + base - (200_000 * abs(2 * center_y - absolute_size_y))
            / absolute_size_y - 100_000,
    )
}

/// Humidity or flatness of a region: the setting, moved by fifteen
/// hundredths of the jitter; held between 0 and 1.
pub open spec fn region_moisture(base: int, jitter: int) -> int {
    clamp_unit(base + div_toward_zero(jitter * 15, 100))
}

/// Terrain of all tiles of a region but its centre.
pub open spec fn region_terrain(reg: &Region) -> HexType {
    if reg.water_region {
        HexType::Water
    } else {
        classify(reg.temperature as int, reg.flatness as int, reg.humidity as int)
    }
}

/// Terrain of tile `tile` of a region: the centre carries the diagnostic
/// mark.
pub open spec fn tile_terrain(reg: &Region, tile: int) -> HexType {
    if reg.center == tile {
        HexType::Debug(CENTER_MARK)
    } else {
        region_terrain(reg)
    }
}

/// The terrain after a region was painted onto `types`.
pub open spec fn decorated(types: Seq<HexType>, reg: &Region) -> Seq<HexType> {
    Seq::new(
        types.len(),
        |t: int|
            if reg.hexes@.contains(t as usize) {
                region_terrain(reg)
            } else if t == reg.center {
                HexType::Debug(CENTER_MARK)
            } else {
                types[t]
            },
    )
}

/// Executable `archetype`.
pub fn archetype_at(k: usize) -> (a: (HexType, i32, i32, i32))
    ensures
        a.0 == archetype(k as int).0,
        a.1 == archetype(k as int).1,
        a.2 == archetype(k as int).2,
        a.3 == archetype(k as int).3,
{
    if k == 0 {
        (HexType::Field, 600_000, 400_000, 500_000)
    } else if k == 1 {
        (HexType::Forest, 400_000, 600_000, 500_000)
    } else if k == 2 {
        (HexType::Desert, 800_000, 400_000, 100_000)
    } else if k == 3 {
        (HexType::Tundra, 200_000, 500_000, 500_000)
    } else if k == 4 {
        (HexType::Water, 500_000, 500_000, 1_000_000)
    } else if k == 5 {
        (HexType::Mountain, 500_000, 1_000_000, 500_000)
    } else if k == 6 {
        (HexType::Ice, 0, 500_000, 500_000)
    } else if k == 7 {
        (HexType::Jungle, 800_000, 500_000, 800_000)
    } else if k == 8 {
        (HexType::Swamp, 500_000, 500_000, 950_000)
    } else {
        (HexType::Grassland, 450_000, 600_000, 500_000)
    }
}

/// Square of the difference of two 32-bit numbers.
fn square_diff(a: i32, b: i32) -> (r: u128)
    ensures
        r == (a - b) * (a - b),
        r <= 0x1_0000_0000 * 0x1_0000_0000,
{
    let d: u64 = abs_diff(a as i64, b as i64);
    assert(d * d == (a - b) * (a - b)) by (nonlinear_arith)
        requires
            d == abs(a - b),
    ;
    assert(d * d <= 0x1_0000_0000 * 0x1_0000_0000) by (nonlinear_arith)
        requires
            0 <= d <= 0x1_0000_0000,
    ;
    (d as u128) * (d as u128)
}

/// Executable `region_temperature`.
pub fn temperature_of(base: i32, center_y: i64, absolute_size_y: i64, jitter: i32) -> (t: i32)
    requires
        absolute_size_y > 0,
    ensures
        t == region_temperature(base as int, center_y as int, absolute_size_y as int, jitter as int),
        0 <= t <= ONE,
{
    let lean: i128 = 2 * (center_y as i128) - (absolute_size_y as i128);
    let off: i128 = if lean < 0 {
        -lean
    } else {
        lean
    };
    let cooling: i128 = 200_000 * off / (absolute_size_y as i128);
    assert(0 <= cooling <= 200_000 * off) by (nonlinear_arith)
        requires
            cooling == (200_000 * off) / (absolute_size_y as int),
            0 <= off,
            0 < absolute_size_y,
    ;
    clamp_to_unit((jitter / 10) as i128 + (base as i128) - cooling - 100_000)
}

/// Executable `region_moisture`.
pub fn moisture_of(base: i32, jitter: i32) -> (m: i32)
    ensures
        m == region_moisture(base as int, jitter as int),
        0 <= m <= ONE,
{
    clamp_to_unit((base as i128) + ((jitter as i128) * 15) / 100)
}

/// The jitter that a number drawn below two million stands for: the number
/// moved down by a million, so that the jitter lies between -1 and 1.
pub open spec fn jitter_from(draw: int) -> int {
    draw - ONE
}

/// Executable `jitter_from`, for every number whose jitter fits 32 bits.
pub fn jitter_of(draw: u64) -> (jitter: i32)
    requires
        jitter_from(draw as int) <= i32::MAX,
    ensures
        jitter == jitter_from(draw as int),
{
    (draw as i64 - 1_000_000) as i32
}

/// Executable `clamp_unit`.
fn clamp_to_unit(value: i128) -> (r: i32)
    ensures
        r == clamp_unit(value as int),
        0 <= r <= ONE,
{
    if value < 0 {
        0
    } else if value > 1_000_000 {
        1_000_000
    } else {
        value as i32
    }
}

impl Inland {
    /// Finds the terrain of the archetype that is nearest to the given
    /// climate. Distances are Euclidean, and the first of several equally
    /// near archetypes wins.
    pub fn search_type(temp: i32, flat: i32, hum: i32) -> (terrain: HexType)
        ensures
            terrain == classify(temp as int, flat as int, hum as int),
            is_archetype(terrain),
    {
        let first = archetype_at(0);
        let mut best_match: HexType = first.0;
        let mut smallest: u128 = square_diff(first.1, temp) + square_diff(first.2, flat)
            + square_diff(first.3, hum);
        let ghost mut best: int = 0;
        let mut k: usize = 1;
        while k < ARCHETYPES
            invariant
                1 <= k <= ARCHETYPES,
                best == nearest_below(k as int, temp as int, flat as int, hum as int),
                0 <= best < k,
                best_match == archetype(best).0,
                smallest == archetype_distance(best, temp as int, flat as int, hum as int),
            decreases ARCHETYPES - k,
        {
            let entry = archetype_at(k);
            let dist: u128 = square_diff(entry.1, temp) + square_diff(entry.2, flat) + square_diff(
                entry.3,
                hum,
            );
            if dist < smallest {
                smallest = dist;
                best_match = entry.0;
                proof {
                    best = k as int;
                }
            }
            k += 1;
        }
        proof {
            lemma_classify_is_archetype(temp as int, flat as int, hum as int);
        }
        best_match
    }

    /// Paints a region onto the map: its centre gets the diagnostic mark,
    /// its other tiles the terrain of the nearest archetype, or water if the
    /// region is one of water.
    pub fn decorate_reg(hex_map: &mut HexMap, reg: &Region)
        requires
            old(hex_map).wf(),
            reg.center < old(hex_map).field@.len(),
            forall|k: int| 0 <= k < reg.hexes@.len() ==> reg.hexes@[k] < old(hex_map).field@.len(),
        ensures
            final(hex_map).is_retyping_of(old(hex_map), decorated(old(hex_map).types(), reg)),
            final(hex_map).wf(),
    {
        let ghost before = old(hex_map).types();
        hex_map.set_type(reg.center, HexType::Debug(CENTER_MARK));
        let base: HexType = Inland::search_type(reg.temperature, reg.flatness, reg.humidity);
        let terrain: HexType = if reg.water_region {
            HexType::Water
        } else {
            base
        };
        let mut k: usize = 0;
        while k < reg.hexes.len()
            invariant
                k <= reg.hexes@.len(),
                terrain == region_terrain(reg),
                before == old(hex_map).types(),
                reg.center < old(hex_map).field@.len(),
                forall|j: int| 0 <= j < reg.hexes@.len() ==> reg.hexes@[j] < old(hex_map).field@.len(),
                hex_map.is_retyping_of(
                    old(hex_map),
                    Seq::new(
                        before.len(),
                        |t: int|
                            if reg.hexes@.subrange(0, k as int).contains(t as usize) {
                                region_terrain(reg)
                            } else if t == reg.center {
                                HexType::Debug(CENTER_MARK)
                            } else {
                                before[t]
                            },
                    ),
                ),
            decreases reg.hexes@.len() - k,
        {
            let ghost done = reg.hexes@.subrange(0, k as int);
            let ghost next = reg.hexes@.subrange(0, k + 1);
            let ghost entry = *hex_map;
            let tile: usize = reg.hexes[k];
            let area: usize = hex_map.field.len();
            hex_map.set_type(tile, terrain);
            proof {
                assert(next[k as int] == tile);
                assert forall|t: int| 0 <= t < hex_map.field@.len() implies (
                #[trigger] hex_map.field@[t]).terrain_type == (if t == tile {
                    terrain
                } else {
                    entry.field@[t].terrain_type
                }) by {
                    assert(entry.types().update(tile as int, terrain)[t] == hex_map.field@[t].terrain_type);
                }
                let target = Seq::new(
                    before.len(),
                    |t: int|
                        if next.contains(t as usize) {
                            region_terrain(reg)
                        } else if t == reg.center {
                            HexType::Debug(CENTER_MARK)
                        } else {
                            before[t]
                        },
                );
                assert forall|v: usize| #[trigger] next.contains(v) <==> (done.contains(v) || v == tile) by {
                    if done.contains(v) {
                        let j = choose|j: int| 0 <= j < done.len() && done[j] == v;
                        assert(next[j] == v);
                    }
                    if next.contains(v) {
                        let j = choose|j: int| 0 <= j < next.len() && next[j] == v;
                        if j < k {
                            assert(done[j] == v);
                        }
                    }
                }
                assert forall|t: int| 0 <= t < hex_map.field@.len() implies (
                #[trigger] hex_map.field@[t]).terrain_type == target[t] by {
                    assert(next.contains(t as usize) <==> (done.contains(t as usize) || t as usize
                        == tile));
                    assert(entry.field@[t].x == old(hex_map).field@[t].x);
                }
                assert(hex_map.is_retyping_of(old(hex_map), target));
            }
            k += 1;
        }
        proof {
            assert(reg.hexes@.subrange(0, k as int) =~= reg.hexes@);
            let target = decorated(before, reg);
            assert(hex_map.is_retyping_of(old(hex_map), target));
            hex_map.lemma_retyping_wf(old(hex_map), target);
        }
    }
}

} // verus!
