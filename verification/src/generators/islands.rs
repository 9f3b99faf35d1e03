//! Terrain of islands in an ocean.
//!
//! The generator runs four passes over a map of ocean: ice at the top and
//! bottom, land, the climate of the land, and coastal water. Noise is not
//! computed here: the passes take one sample per tile for each noise field
//! they read, in millionths.

use vstd::prelude::*;
use crate::fixed::ONE;
use crate::generators::cleared;
use crate::generators::islands::decorator::{decorator_pass_result, moistened, painted};
use crate::generators::islands::ice::{
    edges_frozen, ice_pass_result, is_edge_row, lemma_clear_keeps_edges, lemma_ice_pass_freezes_edges,
};
use crate::generators::islands::land::{
    islets, land_pass_result, lemma_raised_all_keeps_ice, raised_all, sprouted, ContinentDraw, CONTINENTS,
};
use crate::generators::islands::ocean::{flooded, has_land, ocean_pass_result};
use crate::hex::HexType;
use crate::hexmap::{absolute_height, absolute_width, coords_of, HexMap};
use crate::rng::fresh_seed;

pub mod decorator;
pub mod ice;
pub mod land;
pub mod ocean;

verus! {

/// Generator of islands.
#[derive(Clone, Copy, Debug)]
pub struct Islands {
    /// The seed that generation is pinned to while `using_seed` is set.
    pub seed: u32,
    /// Whether generation uses `seed`; otherwise every generation draws a
    /// seed of its own.
    pub using_seed: bool,
    /// Width of the band of water around the land, in tiles.
    pub ocean_distance: u32,
}

impl Default for Islands {
    fn default() -> (generator: Islands)
        ensures
            generator.seed == 0,
            !generator.using_seed,
            generator.ocean_distance == 5,
    {
        Islands { seed: 0, using_seed: false, ocean_distance: 5 }
    }
}

/// One sample per tile of every noise field that the passes read, in
/// millionths and in storage order.
pub struct NoiseSamples {
    /// Cell noise that roughens the edge of the ice.
    pub ice: Vec<i32>,
    /// Fractal noise that shapes land and coastal water.
    pub land: Vec<i32>,
    /// Gradient noise that varies the temperature.
    pub climate: Vec<i32>,
    /// Horizontal part of the wind.
    pub wind_x: Vec<i32>,
    /// Vertical part of the wind.
    pub wind_y: Vec<i32>,
}

impl NoiseSamples {
    /// There is one sample of every field for each of `area` tiles.
    pub open spec fn fits(&self, area: int) -> bool {
        &&& self.ice@.len() == area
        &&& self.land@.len() == area
        &&& self.climate@.len() == area
        &&& self.wind_x@.len() == area
        &&& self.wind_y@.len() == area
    }
}

/// The terrain that a run of the four passes leaves on a map of ocean, for
/// the given noise samples, continents and rolls.
pub open spec fn islands_result(
    area: int,
    noise: &NoiseSamples,
    draws: Seq<ContinentDraw>,
    rolls: Seq<u32>,
    ocean_distance: int,
    size_x: int,
    size_y: int,
) -> Seq<HexType> {
    ocean_pass_result(
        decorator_pass_result(
            land_pass_result(
                ice_pass_result(Seq::new(area as nat, |i: int| HexType::Ocean), noise.ice@, size_x, size_y),
                noise.land@,
                draws,
                size_x,
                size_y,
            ),
            rolls,
            noise,
            size_x,
            size_y,
        ),
        noise.land@,
        ocean_distance,
        size_x,
        size_y,
    )
}

/// The numbers drawn in one run fit a map of the given dimensions: three
/// continents within their ranges, and a roll below 1 for every tile.
pub open spec fn draws_fit(draws: Seq<ContinentDraw>, rolls: Seq<u32>, size_x: int, size_y: int) -> bool {
    &&& draws.len() == CONTINENTS
    &&& forall|k: int|
        0 <= k < draws.len() ==> (#[trigger] draws[k]).in_range(
            absolute_width(size_x),
            absolute_height(size_y),
        )
    &&& rolls.len() == size_x * size_y
    &&& forall|i: int| 0 <= i < rolls.len() ==> rolls[i] < ONE
}

/// The terrain of the islands is determined by the dimensions of the map,
/// the noise samples, the ocean distance and the numbers drawn: two maps of
/// the same dimensions that result from the same samples and numbers carry
/// the same terrain, whatever they carried before.
pub proof fn lemma_islands_determined(
    first: &HexMap,
    first_before: &HexMap,
    second: &HexMap,
    second_before: &HexMap,
    noise: &NoiseSamples,
    draws: Seq<ContinentDraw>,
    rolls: Seq<u32>,
    ocean_distance: int,
)
    requires
        first_before.wf(),
        second_before.wf(),
        first_before.size_x == second_before.size_x,
        first_before.size_y == second_before.size_y,
        first.is_retyping_of(
            first_before,
            islands_result(
                first_before.field@.len() as int,
                noise,
                draws,
                rolls,
                ocean_distance,
                first_before.size_x as int,
                first_before.size_y as int,
            ),
        ),
        second.is_retyping_of(
            second_before,
            islands_result(
                second_before.field@.len() as int,
                noise,
                draws,
                rolls,
                ocean_distance,
                second_before.size_x as int,
                second_before.size_y as int,
            ),
        ),
    ensures
        first.types() == second.types(),
{
    first.lemma_retyping_wf(
        first_before,
        islands_result(
            first_before.field@.len() as int,
            noise,
            draws,
            rolls,
            ocean_distance,
            first_before.size_x as int,
            first_before.size_y as int,
        ),
    );
    second.lemma_retyping_wf(
        second_before,
        islands_result(
            second_before.field@.len() as int,
            noise,
            draws,
            rolls,
            ocean_distance,
            second_before.size_x as int,
            second_before.size_y as int,
        ),
    );
}

/// The passes after the ice pass leave the top and bottom rows frozen.
pub proof fn lemma_islands_edges_frozen(
    area: int,
    noise: &NoiseSamples,
    draws: Seq<ContinentDraw>,
    rolls: Seq<u32>,
    ocean_distance: int,
    size_x: int,
    size_y: int,
)
    requires
        0 <= size_x,
        0 <= size_y,
        area == size_x * size_y,
    ensures
        edges_frozen(
            islands_result(area, noise, draws, rolls, ocean_distance, size_x, size_y),
            size_x,
            size_y,
        ),
{
    let field = HexType::Field;
    let ocean = HexType::Ocean;
    let start = Seq::new(area as nat, |i: int| HexType::Ocean);
    let ice = ice_pass_result(start, noise.ice@, size_x, size_y);
    lemma_ice_pass_freezes_edges(start, noise.ice@, size_x, size_y);
    let sprout = sprouted(ice, noise.land@);
    assert(edges_frozen(sprout, size_x, size_y)) by {
        assert forall|i: int|
            0 <= i < sprout.len() && is_edge_row(coords_of(i, size_x).1, size_y) implies (
        #[trigger] sprout[i]) == HexType::Ice by {
            assert(ice[i] == HexType::Ice);
        }
    }
    let a1 = cleared(sprout, size_x, size_y, field, ocean, 3);
    lemma_clear_keeps_edges(sprout, size_x, size_y, field, ocean, 3);
    let a2 = cleared(a1, size_x, size_y, ocean, field, 3);
    lemma_clear_keeps_edges(a1, size_x, size_y, ocean, field, 3);
    let a3 = cleared(a2, size_x, size_y, field, ocean, 3);
    lemma_clear_keeps_edges(a2, size_x, size_y, field, ocean, 3);
    let a4 = cleared(a3, size_x, size_y, ocean, field, 3);
    lemma_clear_keeps_edges(a3, size_x, size_y, ocean, field, 3);
    let a5 = cleared(a4, size_x, size_y, field, ocean, 3);
    lemma_clear_keeps_edges(a4, size_x, size_y, field, ocean, 3);
    let small = cleared(a5, size_x, size_y, ocean, field, 3);
    lemma_clear_keeps_edges(a5, size_x, size_y, ocean, field, 3);
    assert(small == islets(ice, noise.land@, size_x, size_y));
    let land = raised_all(small, noise.land@, draws, size_x, size_y);
    lemma_raised_all_keeps_ice(small, noise.land@, draws, size_x, size_y);
    assert(edges_frozen(land, size_x, size_y)) by {
        assert forall|i: int|
            0 <= i < land.len() && is_edge_row(coords_of(i, size_x).1, size_y) implies (#[trigger] land[i])
            == HexType::Ice by {
            assert(small[i] == HexType::Ice);
        }
    }
    let paint = painted(land, rolls, noise.climate@, size_x, size_y);
    let decorated = moistened(paint, noise.wind_x@, noise.wind_y@, size_x, size_y);
    assert(edges_frozen(decorated, size_x, size_y)) by {
        assert forall|i: int|
            0 <= i < decorated.len() && is_edge_row(coords_of(i, size_x).1, size_y) implies (
        #[trigger] decorated[i]) == HexType::Ice by {
            assert(land[i] == HexType::Ice);
            assert(paint[i] == HexType::Ice);
        }
    }
    if has_land(decorated) {
        let flood = flooded(decorated, noise.land@, ocean_distance, size_x);
        assert(edges_frozen(flood, size_x, size_y)) by {
            assert forall|i: int|
                0 <= i < flood.len() && is_edge_row(coords_of(i, size_x).1, size_y) implies (
            #[trigger] flood[i]) == HexType::Ice by {
                assert(decorated[i] == HexType::Ice);
            }
        }
        lemma_clear_keeps_edges(flood, size_x, size_y, ocean, HexType::Water, 3);
    }
}

impl Islands {
    /// Pins generation to a seed.
    pub fn set_seed(&mut self, seed: u32)
        ensures
            final(self).seed == seed,
            final(self).using_seed,
            final(self).ocean_distance == old(self).ocean_distance,
    {
        self.using_seed = true;
        self.seed = seed;
    }

    /// Lets every generation draw a seed of its own.
    pub fn reset_seed(&mut self)
        ensures
            final(self).seed == old(self).seed,
            !final(self).using_seed,
            final(self).ocean_distance == old(self).ocean_distance,
    {
        self.using_seed = false;
    }

    /// The seed of the next generation: the pinned seed, or a fresh one from
    /// the generator of the current thread.
    pub fn resolve_seed(&self) -> (seed: u32)
        ensures
            self.using_seed ==> seed == self.seed,
    {
        if self.using_seed {
            self.seed
        } else {
            fresh_seed()
        }
    }

    /// Runs the four passes on the map, which is first covered by ocean:
    /// ice, land, the climate of the land, and coastal water. The random
    /// numbers of the land pass and the decorator pass come from two
    /// generators that are both seeded with `seed`.
    pub fn generate_with(&self, hex_map: &mut HexMap, seed: u32, noise: &NoiseSamples)
        requires
            old(hex_map).wf(),
            noise.fits(old(hex_map).field@.len() as int),
        ensures
            final(hex_map).wf(),
            exists|draws: Seq<ContinentDraw>, rolls: Seq<u32>|
                draws_fit(draws, rolls, old(hex_map).size_x as int, old(hex_map).size_y as int)
                    && #[trigger] final(hex_map).is_retyping_of(
                    old(hex_map),
                    islands_result(
                        old(hex_map).field@.len() as int,
                        noise,
                        draws,
                        rolls,
                        self.ocean_distance as int,
                        old(hex_map).size_x as int,
                        old(hex_map).size_y as int,
                    ),
                ),
            edges_frozen(
                final(hex_map).types(),
                old(hex_map).size_x as int,
                old(hex_map).size_y as int,
            ),
    {
        let ghost size_x = hex_map.size_x as int;
        let ghost size_y = hex_map.size_y as int;
        let ghost area = hex_map.field@.len() as int;
        hex_map.fill(HexType::Ocean);
        let ghost filled = *hex_map;
        proof {
            let ocean = Seq::new(area as nat, |i: int| HexType::Ocean);
            filled.lemma_retyping_wf(old(hex_map), ocean);
        }
        Islands::ice_pass(hex_map, &noise.ice);
        let ghost iced_map = *hex_map;
        proof {
            iced_map.lemma_retyping_wf(
                &filled,
                ice_pass_result(filled.types(), noise.ice@, size_x, size_y),
            );
        }
        let draws = Islands::land_pass(hex_map, &noise.land, seed);
        let ghost land_map = *hex_map;
        proof {
            land_map.lemma_retyping_wf(
                &iced_map,
                land_pass_result(iced_map.types(), noise.land@, draws@, size_x, size_y),
            );
        }
        let rolls = Islands::decorator_pass(hex_map, noise, seed);
        let ghost decorated_map = *hex_map;
        proof {
            decorated_map.lemma_retyping_wf(
                &land_map,
                decorator_pass_result(land_map.types(), rolls@, noise, size_x, size_y),
            );
        }
        self.ocean_pass(hex_map, &noise.land);
        proof {
            let target = islands_result(
                area,
                noise,
                draws@,
                rolls@,
                self.ocean_distance as int,
                size_x,
                size_y,
            );
            hex_map.lemma_retyping_wf(
                &decorated_map,
                ocean_pass_result(
                    decorated_map.types(),
                    noise.land@,
                    self.ocean_distance as int,
                    size_x,
                    size_y,
                ),
            );
            assert(hex_map.types() == target);
            land_map.lemma_retyping_chain(&iced_map, &filled, land_map.types());
            land_map.lemma_retyping_chain(&filled, old(hex_map), land_map.types());
            decorated_map.lemma_retyping_chain(&land_map, old(hex_map), decorated_map.types());
            hex_map.lemma_retyping_chain(&decorated_map, old(hex_map), target);
            lemma_islands_edges_frozen(
                area,
                noise,
                draws@,
                rolls@,
                self.ocean_distance as int,
                size_x,
                size_y,
            );
            assert(draws_fit(draws@, rolls@, size_x, size_y));
        }
    }
}

} // verus!
