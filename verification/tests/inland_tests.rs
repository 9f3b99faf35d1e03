use enigmap::generators::inland::centers::{
    first_unmarked, initial_weights, multiplier_at, pick_weighted, place_center, row_weight,
    sum_weights,
};
use enigmap::generators::inland::climate::{
    archetype_at, jitter_of, moisture_of, temperature_of, CENTER_MARK,
};
use enigmap::generators::inland::growth::{Growth, Region, Regions};
use enigmap::generators::inland::{Inland, InlandParam};
use enigmap::generators::seed_to_rng_seed;
use enigmap::hex::HexType;
use enigmap::hexmap::HexMap;
use rand::rngs::StdRng;
use rand::SeedableRng;

fn is_archetype(terrain: HexType) -> bool {
    (0..10).any(|k| archetype_at(k).0 == terrain)
}

fn assert_covers(regions: &Regions, area: usize) {
    let mut holders = vec![0u32; area];
    for region in &regions.regions {
        holders[region.center] += 1;
        for &tile in &region.hexes {
            holders[tile] += 1;
        }
    }
    assert!(holders.iter().all(|&count| count == 1));
    let held: usize = regions.regions.iter().map(|region| 1 + region.hexes.len()).sum();
    assert_eq!(held, area);
}

#[test]
fn settings_have_their_values() {
    assert_eq!(InlandParam::Low.value(), 150_000);
    assert_eq!(InlandParam::Medium.value(), 500_000);
    assert_eq!(InlandParam::High.value(), 850_000);
    assert_eq!(InlandParam::Custom(333_333).value(), 333_333);
    assert_eq!(InlandParam::Custom(-5).value(), 0);
    assert_eq!(InlandParam::Custom(2_000_000).value(), 1_000_000);
    assert_eq!(InlandParam::default().value(), 500_000);
    assert_eq!(i32::from(InlandParam::Low), 150_000);
    assert_eq!(i32::from(InlandParam::Custom(1_000_001)), 1_000_000);
}

#[test]
fn default_generator_is_medium_and_unseeded() {
    let mut generator = Inland::default();
    assert_eq!(generator.seed, None);
    assert!(generator.wrap_map);
    assert_eq!(generator.region_size.value(), 500_000);
    generator.set_seed(17);
    assert_eq!(generator.seed, Some(17));
    generator.set_wrap_map(false);
    assert!(!generator.wrap_map);
    assert_eq!(generator.seed, Some(17));
    generator.reset_seed();
    assert_eq!(generator.seed, None);
}

#[test]
fn region_count_is_area_over_region_area() {
    let mut generator = Inland::default();
    assert_eq!(generator.get_region_count(&HexMap::new(100, 100)), 153);
    generator.region_size = InlandParam::Custom(0);
    assert_eq!(generator.get_region_count(&HexMap::new(100, 100)), 285);
    generator.region_size = InlandParam::Custom(1_000_000);
    assert_eq!(generator.get_region_count(&HexMap::new(100, 100)), 105);
    generator.region_size = InlandParam::Low;
    assert_eq!(generator.get_region_count(&HexMap::new(100, 100)), 227);
}

#[test]
fn small_maps_have_one_region() {
    let mut generator = Inland::default();
    generator.region_size = InlandParam::Custom(0);
    assert_eq!(generator.get_region_count(&HexMap::new(0, 0)), 1);
    assert_eq!(generator.get_region_count(&HexMap::new(1, 1)), 1);
    assert_eq!(generator.get_region_count(&HexMap::new(5, 7)), 1);
    assert_eq!(generator.get_region_count(&HexMap::new(23, 3)), 1);
    assert_eq!(generator.get_region_count(&HexMap::new(10, 7)), 2);
    generator.region_size = InlandParam::High;
    assert_eq!(generator.get_region_count(&HexMap::new(9, 9)), 1);
}

#[test]
fn weights_fade_toward_top_and_bottom() {
    assert_eq!(row_weight(0, 100), 0);
    assert_eq!(row_weight(5, 100), 707_106);
    assert_eq!(row_weight(9, 100), 948_683);
    assert_eq!(row_weight(10, 100), 1_000_000);
    assert_eq!(row_weight(50, 100), 1_000_000);
    assert_eq!(row_weight(89, 100), 1_000_000);
    assert_eq!(row_weight(95, 100), 632_455);
    assert_eq!(row_weight(99, 100), 0);
    assert_eq!(row_weight(0, 9), 1_000_000);
    let weights = initial_weights(&HexMap::new(3, 20));
    assert_eq!(weights.len(), 60);
    assert_eq!(&weights[0..7], &[0, 0, 0, 707_106, 707_106, 707_106, 1_000_000]);
    assert_eq!(&weights[53..60], &[1_000_000, 707_106, 707_106, 707_106, 0, 0, 0]);
    assert_eq!(sum_weights(&weights), 48_000_000 + 6 * 707_106);
}

#[test]
fn weighted_pick_finds_where_the_sum_passes_the_target() {
    let weights = vec![0, 5, 0, 3, 2];
    assert_eq!(pick_weighted(&weights, 0), 1);
    assert_eq!(pick_weighted(&weights, 4), 1);
    assert_eq!(pick_weighted(&weights, 5), 3);
    assert_eq!(pick_weighted(&weights, 7), 3);
    assert_eq!(pick_weighted(&weights, 8), 4);
    assert_eq!(pick_weighted(&weights, 9), 4);
    assert_eq!(sum_weights(&weights), 10);
}

#[test]
fn first_unmarked_skips_marks() {
    assert_eq!(first_unmarked(&vec![false, true]), 0);
    assert_eq!(first_unmarked(&vec![true, true, false, true, false]), 2);
}

#[test]
fn spacing_multiplier_grows_with_the_distance() {
    let expected = [
        0, 0, 0, 0, 259_637, 435_729, 560_667, 657_577, 736_759, 803_705, 861_697, 912_850,
        958_607, 1_000_000, 1_000_000,
    ];
    for (dist, &value) in expected.iter().enumerate() {
        assert_eq!(multiplier_at(dist as u32), value);
    }
    assert_eq!(multiplier_at(u32::MAX), 1_000_000);
}

#[test]
fn a_centre_lowers_the_weights_around_it() {
    let map = HexMap::new(30, 30);
    let mut weights = vec![1_000_000u64; 900];
    let center = map.coords_to_index(5, 15).unwrap();
    place_center(&map, &mut weights, center);
    assert_eq!(weights[center], 0);
    let at = |x: i32, y: i32| weights[map.coords_to_index(x, y).unwrap()];
    assert_eq!(at(6, 15), 0);
    assert_eq!(at(5, 13), 0);
    assert_eq!(at(2, 15), 0);
    assert_eq!(at(9, 15), 259_637);
    assert_eq!(at(5, 11), 259_637);
    assert_eq!(at(10, 15), 435_729);
    assert_eq!(at(0, 15), 435_729);
    assert_eq!(at(11, 15), 1_000_000);
    assert_eq!(at(5, 21), 1_000_000);
    // on a small map there is no spacing
    let small = HexMap::new(4, 4);
    let mut few = vec![1_000_000u64; 16];
    place_center(&small, &mut few, 5);
    assert_eq!(few.iter().filter(|&&w| w == 0).count(), 1);
    assert_eq!(few[5], 0);
}

#[test]
fn weights_of_a_wrapped_ring_decay_twice() {
    // the rings of radius 4 and 5 run around a map that is 8 tiles wide
    let map = HexMap::new(8, 52);
    let mut weights = vec![1_000_000u64; 8 * 52];
    let center = map.coords_to_index(-10, 26).unwrap();
    place_center(&map, &mut weights, center);
    let row: Vec<u64> = (0..8).map(|k| weights[26 * 8 + k]).collect();
    // columns of row 26, the centre in column 3
    assert_eq!(row[3], 0);
    assert_eq!(row[2], 0);
    assert_eq!(row[4], 0);
    assert_eq!(row[7], 259_637 * 259_637 / 1_000_000);
    assert_eq!(row[0], 435_729 * 435_729 / 1_000_000 * 0 + 0);
}

#[test]
fn centres_are_distinct_tiles() {
    let generator = Inland::default();
    for (size_x, size_y, seed) in [(40u32, 30u32, 1u32), (100, 100, 2), (3, 3, 3), (1, 1, 4), (60, 5, 5)] {
        let map = HexMap::new(size_x, size_y);
        let mut rng = StdRng::from_seed(seed_to_rng_seed(seed));
        let centers = generator.generate_centers(&map, &mut rng);
        assert_eq!(centers.len(), generator.get_region_count(&map) as usize);
        for (i, &center) in centers.iter().enumerate() {
            assert!(center < map.field.len());
            assert!(!centers[..i].contains(&center));
        }
    }
}

#[test]
fn centres_keep_to_the_rules_of_seeding() {
    let mut generator = Inland::default();
    for (size_x, size_y, seed, size) in [
        (40u32, 30u32, 1u32, 500_000),
        (100, 100, 2, 0),
        (1, 10, 3, 0),
        (25, 60, 4, 1_000_000),
        (60, 12, 5, 150_000),
    ] {
        generator.region_size = InlandParam::Custom(size);
        let map = HexMap::new(size_x, size_y);
        let mut rng = StdRng::from_seed(seed_to_rng_seed(seed));
        let centers = generator.generate_centers(&map, &mut rng);
        let spaced = (size_x + size_y) / 2 / 5 >= 4;
        let mut weights = initial_weights(&map);
        for (k, &center) in centers.iter().enumerate() {
            if sum_weights(&weights) > 0 {
                assert!(weights[center] > 0);
                if size_y >= 10 {
                    assert!(map.field[center].y != 0 && map.field[center].y != size_y as i32 - 1);
                }
                if spaced {
                    for &earlier in &centers[..k] {
                        assert!(map.field[earlier].distance_to(&map.field[center]) >= 4);
                    }
                }
            } else {
                let first_free = (0..map.field.len()).find(|tile| !centers[..k].contains(tile));
                assert_eq!(Some(center), first_free);
            }
            place_center(&map, &mut weights, center);
        }
    }
}

#[test]
fn the_first_centre_stays_off_the_weightless_rows() {
    let generator = Inland::default();
    for seed in 0..50 {
        let map = HexMap::new(1, 10);
        let mut rng = StdRng::from_seed(seed_to_rng_seed(seed));
        let centers = generator.generate_centers(&map, &mut rng);
        assert_eq!(centers.len(), 1);
        assert!(centers[0] != 0 && centers[0] != 9);
    }
}

#[test]
fn centres_fill_a_map_that_runs_out_of_weight() {
    // spacing removes all weight long before 285 centres are placed
    let mut generator = Inland::default();
    generator.region_size = InlandParam::Custom(0);
    let map = HexMap::new(100, 100);
    let mut rng = StdRng::from_seed(seed_to_rng_seed(9));
    let centers = generator.generate_centers(&map, &mut rng);
    assert_eq!(centers.len(), 285);
    let mut sorted = centers.clone();
    sorted.sort();
    sorted.dedup();
    assert_eq!(sorted.len(), 285);
}

#[test]
fn growth_starts_at_the_centres() {
    let map = HexMap::new(4, 4);
    let growth = Growth::start(&map, &vec![5, 15]);
    assert_eq!(growth.remaining, 14);
    assert_eq!(growth.owner[5], Some(0));
    assert_eq!(growth.owner[15], Some(1));
    assert_eq!(growth.owner.iter().filter(|owner| owner.is_none()).count(), 14);
    assert_eq!(growth.frontiers[0], vec![10, 9, 4, 1, 2, 6]);
    assert_eq!(growth.frontiers[1], vec![14, 11, 8, 12]);
    assert_eq!(growth.regions[1].center, 15);
    assert!(growth.regions[1].hexes.is_empty());
}

#[test]
fn a_step_claims_a_free_tile_and_drops_a_claimed_one() {
    let map = HexMap::new(4, 4);
    let mut growth = Growth::start(&map, &vec![5, 6]);
    // entry 5 of the first frontier is the other centre
    growth.step(&map, 0, 5);
    assert_eq!(growth.remaining, 14);
    assert_eq!(growth.frontiers[0], vec![10, 9, 4, 1, 2]);
    assert!(growth.regions[0].hexes.is_empty());
    growth.step(&map, 0, 1);
    assert_eq!(growth.remaining, 13);
    assert_eq!(growth.owner[9], Some(0));
    assert_eq!(growth.regions[0].hexes, vec![9]);
    // the neighbours of tile 9 without the centre 5, which is claimed
    assert_eq!(growth.frontiers[0], vec![10, 4, 1, 2, 13, 12, 8, 4, 10]);
    assert_eq!(growth.frontiers[1], vec![11, 10, 5, 2, 3, 7]);
    growth.step(&map, 1, 1);
    assert_eq!(growth.owner[10], Some(1));
    growth.step(&map, 0, 0);
    assert_eq!(growth.regions[0].hexes, vec![9]);
    assert_eq!(growth.frontiers[0], vec![4, 1, 2, 13, 12, 8, 4, 10]);
    assert_eq!(growth.remaining, 12);
}

#[test]
fn regions_cover_the_map() {
    let generator = Inland::default();
    for (size_x, size_y, seed) in [(40u32, 30u32, 1u32), (64, 64, 2), (3, 3, 3), (1, 1, 4), (1, 9, 5), (2, 2, 6)] {
        let map = HexMap::new(size_x, size_y);
        let mut rng = StdRng::from_seed(seed_to_rng_seed(seed));
        let centers = generator.generate_centers(&map, &mut rng);
        let regions = generator.generate_regions(&mut rng, &map, &centers);
        assert_eq!(regions.regions.len(), centers.len());
        for (region, &center) in regions.regions.iter().zip(centers.iter()) {
            assert_eq!(region.center, center);
        }
        assert_covers(&regions, map.field.len());
    }
}

#[test]
fn regions_are_connected_to_their_centres() {
    let generator = Inland::default();
    let map = HexMap::new(30, 30);
    let mut rng = StdRng::from_seed(seed_to_rng_seed(11));
    let centers = generator.generate_centers(&map, &mut rng);
    let regions = generator.generate_regions(&mut rng, &map, &centers);
    for region in &regions.regions {
        let mut seen = vec![region.center];
        for &tile in &region.hexes {
            assert!(map.neighbour_indices(tile).iter().any(|n| seen.contains(n)));
            seen.push(tile);
        }
    }
}

#[test]
fn new_regions_are_empty_and_medium() {
    let regions = Regions::new(3);
    assert_eq!(regions.regions.len(), 3);
    for region in &regions.regions {
        assert_eq!(region.center, 0);
        assert_eq!(
            (region.temperature, region.humidity, region.flatness),
            (500_000, 500_000, 500_000)
        );
        assert!(!region.water_region);
        assert!(region.hexes.is_empty());
    }
    assert_eq!(Regions::new(0).regions.len(), 0);
    assert_eq!(Region::new().center, 0);
    assert_eq!(Region::default().humidity, 500_000);
}

#[test]
fn climate_of_a_region() {
    assert_eq!(temperature_of(500_000, 500, 1000, 100), 400_010);
    assert_eq!(temperature_of(500_000, 250, 1000, 100), 300_010);
    assert_eq!(temperature_of(500_000, 750, 1000, -100), 299_990);
    assert_eq!(temperature_of(1_000_000, 500, 1000, 999_999), 999_999);
    assert_eq!(temperature_of(400_000, 1, 1000, -9), 100_400);
    assert_eq!(temperature_of(400_000, 999, 1000, -10), 100_399);
    assert_eq!(moisture_of(500_000, -1_000_000), 350_000);
    assert_eq!(moisture_of(500_000, 999_999), 649_999);
    assert_eq!(moisture_of(1_000, -7), 999);
    assert_eq!(moisture_of(1_000, -6), 1_000);
    // the climate stays between 0 and 1
    assert_eq!(temperature_of(0, 1, 1000, -1_000_000), 0);
    assert_eq!(temperature_of(150_000, 999, 1000, -9), 0);
    assert_eq!(temperature_of(1_000_000, 500, 1000, 1_000_000), 1_000_000);
    assert_eq!(moisture_of(0, -7), 0);
    assert_eq!(moisture_of(1_000_000, 7), 1_000_000);
    assert_eq!(moisture_of(900_000, 1_000_000), 1_000_000);
    assert_eq!(temperature_of(i32::MAX, i64::MAX, 1, i32::MAX), 0);
    assert_eq!(temperature_of(i32::MAX, 0, i64::MAX, i32::MAX), 1_000_000);
    assert_eq!(temperature_of(i32::MIN, i64::MIN, i64::MAX, i32::MIN), 0);
    assert_eq!(moisture_of(i32::MAX, i32::MAX), 1_000_000);
    assert_eq!(moisture_of(i32::MIN, i32::MIN), 0);
    assert_eq!(moisture_of(400_000_000, i32::MIN), 1_000_000);
}

#[test]
fn a_drawn_number_stands_for_a_jitter() {
    assert_eq!(jitter_of(0), -1_000_000);
    assert_eq!(jitter_of(1_000_000), 0);
    assert_eq!(jitter_of(1_999_999), 999_999);
    assert_eq!(jitter_of(250_000), -750_000);
    assert_eq!(jitter_of(2_148_483_647), i32::MAX);
}

#[test]
fn archetypes_are_classified_as_themselves() {
    let expected = [
        (HexType::Field, 600_000, 400_000, 500_000),
        (HexType::Forest, 400_000, 600_000, 500_000),
        (HexType::Desert, 800_000, 400_000, 100_000),
        (HexType::Tundra, 200_000, 500_000, 500_000),
        (HexType::Water, 500_000, 500_000, 1_000_000),
        (HexType::Mountain, 500_000, 1_000_000, 500_000),
        (HexType::Ice, 0, 500_000, 500_000),
        (HexType::Jungle, 800_000, 500_000, 800_000),
        (HexType::Swamp, 500_000, 500_000, 950_000),
        (HexType::Grassland, 450_000, 600_000, 500_000),
    ];
    for (k, &entry) in expected.iter().enumerate() {
        assert_eq!(archetype_at(k), entry);
        assert_eq!(Inland::search_type(entry.1, entry.2, entry.3), entry.0);
    }
}

#[test]
fn nearest_archetype_wins_and_the_first_of_equals() {
    assert_eq!(Inland::search_type(0, 0, 0), HexType::Ice);
    assert_eq!(Inland::search_type(1_000_000, 0, 0), HexType::Desert);
    assert_eq!(Inland::search_type(500_000, 500_000, 980_000), HexType::Water);
    assert_eq!(Inland::search_type(500_000, 500_000, 970_000), HexType::Swamp);
    // as far from water as from swamp: water comes first
    assert_eq!(Inland::search_type(500_000, 500_000, 975_000), HexType::Water);
    assert_eq!(Inland::search_type(500_000, 500_000, 500_000), HexType::Grassland);
    assert_eq!(Inland::search_type(550_000, 500_000, 500_000), HexType::Field);
    assert_eq!(Inland::search_type(i32::MAX, i32::MAX, i32::MAX), HexType::Jungle);
    assert_eq!(Inland::search_type(i32::MIN, i32::MIN, i32::MIN), HexType::Ice);
}

#[test]
fn a_region_is_painted_with_its_terrain() {
    let mut map = HexMap::new(4, 4);
    map.fill(HexType::Ocean);
    let mut region = Region::new();
    region.center = 5;
    region.hexes = vec![1, 2, 6];
    region.temperature = 800_000;
    region.flatness = 400_000;
    region.humidity = 100_000;
    Inland::decorate_reg(&mut map, &region);
    assert_eq!(map.field[5].terrain_type, HexType::Debug(CENTER_MARK));
    assert_eq!(CENTER_MARK, 100_000);
    for tile in [1, 2, 6] {
        assert_eq!(map.field[tile].terrain_type, HexType::Desert);
    }
    for tile in [0, 3, 4, 7, 8, 15] {
        assert_eq!(map.field[tile].terrain_type, HexType::Ocean);
    }
    region.water_region = true;
    Inland::decorate_reg(&mut map, &region);
    for tile in [1, 2, 6] {
        assert_eq!(map.field[tile].terrain_type, HexType::Water);
    }
}

#[test]
fn generated_map_has_marked_centres_and_archetypes() {
    let mut generator = Inland::default();
    generator.set_seed(42);
    let mut map = HexMap::new(50, 40);
    generator.generate(&mut map);
    let marked = map
        .field
        .iter()
        .filter(|hex| hex.terrain_type == HexType::Debug(CENTER_MARK))
        .count();
    assert_eq!(marked, generator.get_region_count(&map) as usize);
    assert_eq!(marked, 30);
    for hex in &map.field {
        assert!(hex.terrain_type == HexType::Debug(CENTER_MARK) || is_archetype(hex.terrain_type));
    }
    let fresh = HexMap::new(50, 40);
    for (hex, before) in map.field.iter().zip(fresh.field.iter()) {
        assert_eq!((hex.x, hex.y, hex.center()), (before.x, before.y, before.center()));
    }
}

#[test]
fn same_seed_gives_the_same_inland_map() {
    let mut generator = Inland::default();
    generator.set_seed(2024);
    let mut first = HexMap::new(35, 25);
    let mut second = HexMap::new(35, 25);
    generator.generate(&mut first);
    generator.generate(&mut second);
    let types = |map: &HexMap| map.field.iter().map(|hex| hex.terrain_type).collect::<Vec<_>>();
    assert_eq!(types(&first), types(&second));
    generator.set_seed(2025);
    let mut third = HexMap::new(35, 25);
    generator.generate(&mut third);
    assert_ne!(types(&first), types(&third));
}

#[test]
fn unseeded_generation_covers_the_map_as_well() {
    let generator = Inland::default();
    let mut map = HexMap::new(12, 12);
    generator.generate(&mut map);
    assert!(map
        .field
        .iter()
        .all(|hex| hex.terrain_type == HexType::Debug(CENTER_MARK) || is_archetype(hex.terrain_type)));
    let mut tiny = HexMap::new(1, 1);
    generator.generate(&mut tiny);
    assert_eq!(tiny.field[0].terrain_type, HexType::Debug(CENTER_MARK));
}
