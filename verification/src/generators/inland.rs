//! Terrain grown from regions.
//!
//! The generator picks region centres at random, with a spacing rule that
//! keeps them apart, grows the regions from their centres until every tile
//! belongs to one, gives each region a climate and classifies it by the
//! nearest of ten terrain archetypes.

use vstd::prelude::*;
use crate::fixed::{clamp_unit, ONE};
use crate::generators::inland::centers::{draws_in_range, is_spaced_seeding, seeded};
use crate::generators::inland::climate::{
    archetype, decorated, is_archetype, jitter_of, lemma_classify_is_archetype, moisture_of,
    region_moisture, region_temperature, temperature_of, tile_terrain, CENTER_MARK,
};
use crate::generators::inland::growth::{is_growth_of, Region, Regions};
use crate::generators::seed_to_rng_seed;
use crate::hex::HexType;
use crate::hexmap::{absolute_height, center_y_at, HexMap};
use crate::rng::{draw_below, fresh_seed, rng_from_seed};
use rand::rngs::StdRng;

pub mod centers;
pub mod climate;
pub mod growth;

verus! {

/// A setting between 0 and 1, in millionths.
#[derive(Clone, Copy, Debug)]
pub enum InlandParam {
    Low,
    Medium,
    High,
    /// A value of the caller's choice, which is clamped to the range from 0
    /// to 1.
    Custom(i32),
}

impl InlandParam {
    /// The value in millionths.
    pub open spec fn spec_value(self) -> int {
        match self {
            InlandParam::Low => 150_000,
            InlandParam::Medium => 500_000,
            InlandParam::High => 850_000,
            InlandParam::Custom(val) => clamp_unit(val as int),
        }
    }

    /// The value in millionths.
    pub fn value(self) -> (v: i32)
        ensures
            v == self.spec_value(),
            0 <= v <= ONE,
    {
        match self {
            InlandParam::Low => 150_000,
            InlandParam::Medium => 500_000,
            InlandParam::High => 850_000,
            InlandParam::Custom(val) => if val < 0 {
                0
            } else if val > 1_000_000 {
                1_000_000
            } else {
                val
            },
        }
    }
}

impl From<InlandParam> for i32 {
    /// The value of the setting in millionths.
    fn from(param: InlandParam) -> (v: i32) {
        param.value()
    }
}

impl vstd::std_specs::convert::FromSpecImpl<InlandParam> for i32 {
    open spec fn obeys_from_spec() -> bool {
        true
    }

    open spec fn from_spec(param: InlandParam) -> i32 {
        param.spec_value() as i32
    }
}

impl Default for InlandParam {
    fn default() -> (param: InlandParam)
        ensures
            param == InlandParam::Medium,
    {
        InlandParam::Medium
    }
}

/// A generator that divides the map into regions and gives every region one
/// terrain.
#[derive(Clone, Copy, Debug)]
pub struct Inland {
    /// The seed that generation is pinned to; without one every generation
    /// draws a seed of its own.
    pub seed: Option<u32>,
    /// Whether the map repeats along the X axis.
    pub wrap_map: bool,
    pub temperature: InlandParam,
    pub flatness: InlandParam,
    pub humidity: InlandParam,
    pub region_size: InlandParam,
}

impl Default for Inland {
    fn default() -> (generator: Inland)
        ensures
            generator.seed.is_none(),
            generator.wrap_map,
            generator.temperature == InlandParam::Medium,
            generator.flatness == InlandParam::Medium,
            generator.humidity == InlandParam::Medium,
            generator.region_size == InlandParam::Medium,
    {
        Inland {
            seed: None,
            wrap_map: true,
            temperature: InlandParam::Medium,
            flatness: InlandParam::Medium,
            humidity: InlandParam::Medium,
            region_size: InlandParam::Medium,
        }
    }
}

/// Number of tiles that one region covers on average: between 35 for a
/// region size of 0 and 95 for a region size of 1.
pub open spec fn area_per_region(region_size: int) -> int {
    (region_size * 60 + 35 * ONE) / (ONE as int)
}

/// Number of regions on a map of `area` tiles: one for every
/// `area_per_region` tiles, and at least one.
pub open spec fn region_count(area: int, region_size: int) -> int {
    if area / area_per_region(region_size) >= 1 {
        area / area_per_region(region_size)
    } else {
        1
    }
}

/// With the smallest region size a map of fewer than 70 tiles has a single
/// region.
pub proof fn lemma_small_map_has_one_region(area: int)
    requires
        0 <= area < 70,
    ensures
        region_count(area, 0) == 1,
{
    assert(area_per_region(0) == 35);
}

/// The number of regions is at least one and, on a map with tiles, at most
/// the number of tiles.
pub proof fn lemma_region_count_bounds(area: int, region_size: int)
    requires
        0 <= area,
        0 <= region_size <= ONE,
    ensures
        region_count(area, region_size) >= 1,
        area >= 1 ==> region_count(area, region_size) <= area,
        35 <= area_per_region(region_size) <= 95,
{
    let per = area_per_region(region_size);
    assert(35 <= per <= 95);
    vstd::arithmetic::div_mod::lemma_fundamental_div_mod(area, per);
    vstd::arithmetic::div_mod::lemma_mod_pos_bound(area, per);
    let q = area / per;
    assert(q <= area) by (nonlinear_arith)
        requires
            area == per * q + area % per,
            0 <= area % per,
            per >= 35,
            area >= 0,
    ;
}

/// The climate of the region is one that the settings allow for a region
/// whose centre lies at the height `center_y` of a map of the height
/// `height`: each attribute is its setting moved by a jitter between -1 and
/// 1.
pub open spec fn has_climate(reg: &Region, generator: &Inland, center_y: int, height: int) -> bool {
    &&& exists|jitter: int|
        -ONE <= jitter < ONE && reg.temperature == #[trigger] region_temperature(
            generator.temperature.spec_value(),
            center_y,
            height,
            jitter,
        )
    &&& exists|jitter: int|
        -ONE <= jitter < ONE && reg.humidity == #[trigger] region_moisture(
            generator.humidity.spec_value(),
            jitter,
        )
    &&& exists|jitter: int|
        -ONE <= jitter < ONE && reg.flatness == #[trigger] region_moisture(
            generator.flatness.spec_value(),
            jitter,
        )
}

/// The terrain `types` is what the generator makes of the numbers drawn:
/// `draws`, each below the weight left when it is made, select the centres,
/// as many as the settings ask for and spaced by the rules of seeding;
/// `turns` grow the regions from them, each region has a climate that the
/// settings allow, and every tile has the terrain of its region. The
/// regions are contiguous and cover the map, each tile once.
pub open spec fn is_inland_map(
    types: Seq<HexType>,
    regions: &Regions,
    draws: Seq<u64>,
    turns: Seq<Option<usize>>,
    generator: &Inland,
    size_x: int,
    size_y: int,
) -> bool {
    &&& draws.len() == region_count(size_x * size_y, generator.region_size.spec_value())
    &&& draws_in_range(draws, size_x, size_y)
    &&& is_spaced_seeding(seeded(draws, size_x, size_y).0, size_x, size_y)
    &&& is_growth_of(regions, seeded(draws, size_x, size_y).0, turns, size_x, size_y)
    &&& regions.covers(size_x * size_y)
    &&& regions.tile_count() == size_x * size_y
    &&& regions.contiguous(size_x, size_y)
    &&& forall|i: int|
        0 <= i < regions.regions@.len() ==> !(#[trigger] regions.regions@[i]).water_region
            && has_climate(
            &regions.regions@[i],
            generator,
            center_y_at(regions.regions@[i].center as int, size_x),
            absolute_height(size_y),
        )
    &&& forall|t: int, i: int|
        0 <= t < types.len() && #[trigger] regions.region_has(i, t) ==> (#[trigger] types[t])
            == tile_terrain(&regions.regions@[i], t)
}

/// The regions have the same climate, one by one.
pub open spec fn same_climate(first: &Regions, second: &Regions) -> bool {
    &&& first.regions@.len() == second.regions@.len()
    &&& forall|i: int|
        0 <= i < first.regions@.len() ==> {
            &&& (#[trigger] first.regions@[i]).temperature == second.regions@[i].temperature
            &&& first.regions@[i].humidity == second.regions@[i].humidity
            &&& first.regions@[i].flatness == second.regions@[i].flatness
        }
}

/// The terrain is determined by the dimensions of the map and the numbers
/// drawn: two maps of the same dimensions that result from the same draws,
/// the same turns and regions of the same climate carry the same terrain.
pub proof fn lemma_inland_determined(
    first: Seq<HexType>,
    first_regions: &Regions,
    second: Seq<HexType>,
    second_regions: &Regions,
    draws: Seq<u64>,
    turns: Seq<Option<usize>>,
    generator: &Inland,
    size_x: int,
    size_y: int,
)
    requires
        first.len() == size_x * size_y,
        second.len() == size_x * size_y,
        is_inland_map(first, first_regions, draws, turns, generator, size_x, size_y),
        is_inland_map(second, second_regions, draws, turns, generator, size_x, size_y),
        same_climate(first_regions, second_regions),
    ensures
        first == second,
{
    let centers = seeded(draws, size_x, size_y).0;
    assert(first_regions.tiles() == second_regions.tiles());
    assert forall|t: int| 0 <= t < first.len() implies first[t] == second[t] by {
        assert(first_regions.holds(t));
        let i = choose|i: int| first_regions.region_has(i, t);
        let one = first_regions.regions@[i];
        let other = second_regions.regions@[i];
        assert(one.center == centers[i]);
        assert(other.center == centers[i]);
        assert(one.hexes@ == first_regions.tiles()[i]);
        assert(other.hexes@ == second_regions.tiles()[i]);
        assert(second_regions.region_has(i, t));
        assert(first[t] == tile_terrain(&one, t));
        assert(second[t] == tile_terrain(&other, t));
    }
    assert(first =~= second);
}

/// The terrain of the map is what generation makes of the centres: every
/// centre carries the diagnostic mark, every other tile the terrain of an
/// archetype.
pub open spec fn is_inland_terrain(types: Seq<HexType>, centers: Seq<usize>) -> bool {
    forall|t: int|
        0 <= t < types.len() ==> if centers.contains(t as usize) {
            (#[trigger] types[t]) == HexType::Debug(CENTER_MARK)
        } else {
            is_archetype(types[t])
        }
}

impl Inland {
    /// Sets whether the map repeats along the X axis.
    pub fn set_wrap_map(&mut self, value: bool)
        ensures
            final(self).wrap_map == value,
            final(self).seed == old(self).seed,
            final(self).temperature == old(self).temperature,
            final(self).flatness == old(self).flatness,
            final(self).humidity == old(self).humidity,
            final(self).region_size == old(self).region_size,
    {
        self.wrap_map = value;
    }

    /// Pins generation to a seed.
    pub fn set_seed(&mut self, seed: u32)
        ensures
            final(self).seed == Some(seed),
            final(self).wrap_map == old(self).wrap_map,
            final(self).temperature == old(self).temperature,
            final(self).flatness == old(self).flatness,
            final(self).humidity == old(self).humidity,
            final(self).region_size == old(self).region_size,
    {
        self.seed = Some(seed);
    }

    /// Lets every generation draw a seed of its own.
    pub fn reset_seed(&mut self)
        ensures
            final(self).seed.is_none(),
            final(self).wrap_map == old(self).wrap_map,
            final(self).temperature == old(self).temperature,
            final(self).flatness == old(self).flatness,
            final(self).humidity == old(self).humidity,
            final(self).region_size == old(self).region_size,
    {
        self.seed = None;
    }

    /// Number of regions that a map gets: one for every 35 to 95 tiles,
    /// depending on the region size, and at least one.
    pub fn get_region_count(&self, hex_map: &HexMap) -> (count: u32)
        requires
            hex_map.wf(),
        ensures
            count == region_count(hex_map.area(), self.region_size.spec_value()),
            count >= 1,
    {
        let area: u32 = hex_map.get_area();
        let size: i64 = self.region_size.value() as i64;
        let area_size: u32 = ((size * 60 + 35_000_000) / 1_000_000) as u32;
        proof {
            lemma_region_count_bounds(area as int, size as int);
        }
        let count: u32 = area / area_size;
        if count >= 1 {
            count
        } else {
            1
        }
    }

    /// Draws a jitter between -1 and 1, in millionths.
    fn draw_jitter(rng: &mut StdRng) -> (jitter: i32)
        ensures
            -ONE <= jitter < ONE,
    {
        jitter_of(draw_below(rng, 2_000_000))
    }

    /// Generates the terrain of the map. Region centres are chosen at
    /// random, regions are grown around them, every region gets a climate
    /// from the settings, its latitude and a random jitter, and its tiles the
    /// terrain of the archetype nearest to that climate.
    pub fn generate(&self, hex_map: &mut HexMap)
        requires
            old(hex_map).wf(),
            old(hex_map).area() > 0,
        ensures
            final(hex_map).wf(),
            final(hex_map).is_retyping_of(old(hex_map), final(hex_map).types()),
            exists|centers: Seq<usize>|
                {
                    &&& centers.len() == region_count(
                        old(hex_map).area(),
                        self.region_size.spec_value(),
                    )
                    &&& centers.no_duplicates()
                    &&& #[trigger] is_inland_terrain(final(hex_map).types(), centers)
                },
            exists|regions: Regions, draws: Seq<u64>, turns: Seq<Option<usize>>| #[trigger]
                is_inland_map(
                    final(hex_map).types(),
                    &regions,
                    draws,
                    turns,
                    self,
                    old(hex_map).size_x as int,
                    old(hex_map).size_y as int,
                ),
    {
        let seed: u32 = match self.seed {
            Some(val) => val,
            None => fresh_seed(),
        };
        let mut rng = rng_from_seed(seed_to_rng_seed(seed));
        let centers = self.generate_centers(hex_map, &mut rng);
        let ghost draws = choose|draws: Seq<u64>|
            draws.len() == centers@.len() && draws_in_range(
                draws,
                hex_map.size_x as int,
                hex_map.size_y as int,
            ) && centers@ == (#[trigger] seeded(
                draws,
                hex_map.size_x as int,
                hex_map.size_y as int,
            )).0;
        let mut regions = self.generate_regions(&mut rng, hex_map, &centers);
        let ghost grown = regions;
        let ghost turns = choose|turns: Seq<Option<usize>>| #[trigger]
            is_growth_of(&grown, centers@, turns, hex_map.size_x as int, hex_map.size_y as int);
        let area: usize = hex_map.field.len();
        let count: usize = regions.regions.len();
        let temperature: i32 = self.temperature.value();
        let humidity: i32 = self.humidity.value();
        let flatness: i32 = self.flatness.value();
        let mut i: usize = 0;
        while i < count
            invariant
                i <= count,
                count == regions.regions@.len(),
                count == grown.regions@.len(),
                hex_map.wf(),
                *hex_map == *old(hex_map),
                area == hex_map.field@.len(),
                grown.covers(area as int),
                temperature == self.temperature.spec_value(),
                humidity == self.humidity.spec_value(),
                flatness == self.flatness.spec_value(),
                0 <= temperature <= ONE,
                0 <= humidity <= ONE,
                0 <= flatness <= ONE,
                forall|j: int|
                    0 <= j < count ==> (#[trigger] regions.regions@[j]).center == grown.regions@[j].center
                        && regions.regions@[j].hexes@ == grown.regions@[j].hexes@
                        && !regions.regions@[j].water_region,
                forall|j: int|
                    0 <= j < i ==> has_climate(
                        &(#[trigger] regions.regions@[j]),
                        self,
                        center_y_at(regions.regions@[j].center as int, hex_map.size_x as int),
                        absolute_height(hex_map.size_y as int),
                    ),
            decreases count - i,
        {
            let ghost entry = regions;
            let center: usize = regions.regions[i].center;
            proof {
                assert(grown.regions@[i as int].center < area);
                hex_map.lemma_center_bounds(center as int);
            }
            let center_y: i64 = hex_map.field[center].center_y;
            let warmth: i32 = Inland::draw_jitter(&mut rng);
            regions.regions[i].temperature = temperature_of(
                temperature,
                center_y,
                hex_map.absolute_size_y,
                warmth,
            );
            let damp: i32 = Inland::draw_jitter(&mut rng);
            regions.regions[i].humidity = moisture_of(humidity, damp);
            let level: i32 = Inland::draw_jitter(&mut rng);
            regions.regions[i].flatness = moisture_of(flatness, level);
            proof {
                assert(center_y == center_y_at(center as int, hex_map.size_x as int));
                let reg = regions.regions@[i as int];
                assert(reg.temperature == region_temperature(
                    self.temperature.spec_value(),
                    center_y_at(reg.center as int, hex_map.size_x as int),
                    absolute_height(hex_map.size_y as int),
                    warmth as int,
                ));
                assert(reg.humidity == region_moisture(self.humidity.spec_value(), damp as int));
                assert(reg.flatness == region_moisture(self.flatness.spec_value(), level as int));
                assert(has_climate(
                    &reg,
                    self,
                    center_y_at(reg.center as int, hex_map.size_x as int),
                    absolute_height(hex_map.size_y as int),
                ));
                assert forall|j: int| 0 <= j < i implies has_climate(
                    &(#[trigger] regions.regions@[j]),
                    self,
                    center_y_at(regions.regions@[j].center as int, hex_map.size_x as int),
                    absolute_height(hex_map.size_y as int),
                ) by {
                    assert(regions.regions@[j] == entry.regions@[j]);
                }
            }
            i += 1;
        }
        proof {
            regions.lemma_same_tiles_cover(&grown, area as int);
            regions.lemma_same_tiles_contiguous(
                &grown,
                hex_map.size_x as int,
                hex_map.size_y as int,
            );
        }
        let mut i: usize = 0;
        while i < count
            invariant
                i <= count,
                count == regions.regions@.len(),
                old(hex_map).wf(),
                hex_map.wf(),
                area == old(hex_map).field@.len(),
                regions.covers(area as int),
                hex_map.is_retyping_of(old(hex_map), hex_map.types()),
                forall|t: int, j: int|
                    0 <= t < area && #[trigger] regions.region_has(j, t) ==> (#[trigger] hex_map.types()[t])
                        == (if j < i {
                        tile_terrain(&regions.regions@[j], t)
                    } else {
                        old(hex_map).types()[t]
                    }),
            decreases count - i,
        {
            let ghost entry = *hex_map;
            let ghost reg = regions.regions@[i as int];
            proof {
                assert(regions.regions@[i as int].center < area);
                assert forall|k: int| 0 <= k < reg.hexes@.len() implies reg.hexes@[k] < area by {
                    assert(regions.regions@[i as int].hexes@[k] < area);
                }
            }
            Inland::decorate_reg(hex_map, &regions.regions[i]);
            proof {
                let painted = decorated(entry.types(), &reg);
                hex_map.lemma_retyping_wf(&entry, painted);
                assert(hex_map.is_retyping_of(old(hex_map), hex_map.types()));
                assert forall|t: int, j: int|
                    0 <= t < area && #[trigger] regions.region_has(j, t) implies (
                #[trigger] hex_map.types()[t]) == (if j < i + 1 {
                    tile_terrain(&regions.regions@[j], t)
                } else {
                    old(hex_map).types()[t]
                }) by {
                    assert(entry.types()[t] == (if j < i {
                        tile_terrain(&regions.regions@[j], t)
                    } else {
                        old(hex_map).types()[t]
                    }));
                    if j != i {
                        if reg.hexes@.contains(t as usize) || t == reg.center {
                            assert(regions.region_has(i as int, t));
                        }
                    } else {
                        assert(reg.has(t));
                    }
                }
            }
            i += 1;
        }
        proof {
            let types = hex_map.types();
            assert forall|t: int| 0 <= t < types.len() implies if centers@.contains(t as usize) {
                (#[trigger] types[t]) == HexType::Debug(CENTER_MARK)
            } else {
                is_archetype(types[t])
            } by {
                assert(regions.holds(t));
                let j = choose|j: int| regions.region_has(j, t);
                assert(types[t] == tile_terrain(&regions.regions@[j], t));
                if centers@.contains(t as usize) {
                    let c = choose|c: int| 0 <= c < centers@.len() && centers@[c] == t as usize;
                    assert(grown.regions@[c].center == centers@[c]);
                    assert(regions.regions@[c].center == grown.regions@[c].center);
                    assert(regions.region_has(c, t));
                } else {
                    assert(grown.regions@[j].center == centers@[j]);
                    assert(regions.regions@[j].center == grown.regions@[j].center);
                    let reg = regions.regions@[j];
                    lemma_classify_is_archetype(
                        reg.temperature as int,
                        reg.flatness as int,
                        reg.humidity as int,
                    );
                    assert(archetype(4).0 == HexType::Water);
                }
            }
            assert(is_inland_terrain(types, centers@));
            assert(regions.tiles() =~= grown.tiles()) by {
                assert forall|j: int| 0 <= j < count implies regions.tiles()[j] == grown.tiles()[j] by {
                    assert(regions.regions@[j].hexes@ == grown.regions@[j].hexes@);
                }
            }
            assert(is_growth_of(
                &regions,
                centers@,
                turns,
                old(hex_map).size_x as int,
                old(hex_map).size_y as int,
            )) by {
                assert forall|j: int| 0 <= j < count implies (#[trigger] regions.regions@[j]).center
                    == centers@[j] by {
                    assert(grown.regions@[j].center == centers@[j]);
                }
            }
            assert(is_inland_map(
                types,
                &regions,
                draws,
                turns,
                self,
                old(hex_map).size_x as int,
                old(hex_map).size_y as int,
            ));
        }
    }
}

} // verus!
