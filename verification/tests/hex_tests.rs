use enigmap::hex::{Hex, HexType, RATIO};
use enigmap::hexmap::HexMap;
use rand::rngs::StdRng;
use rand::SeedableRng;

#[test]
fn hex() {
    assert_eq!((9, 1), Hex::unwrap_coords(-1, 1, 10));
    assert_eq!((-1, 2), Hex::unwrap_coords(-1, 2, 10));
    assert_eq!((0, 1), Hex::unwrap_coords(0, 1, 10));
    assert_eq!((0, 1), Hex::unwrap_coords(10, 1, 10));
}

#[test]
fn unwrap_coords_wraps_at_most_once() {
    assert_eq!((15, 0), Hex::unwrap_coords(25, 0, 10));
    assert_eq!((-15, 0), Hex::unwrap_coords(-25, 0, 10));
    assert_eq!((3, 5), Hex::unwrap_coords(3, 5, 10));
    assert_eq!((7, 5), Hex::unwrap_coords(-3, 5, 10));
    assert_eq!((-2, 5), Hex::unwrap_coords(8, 5, 10));
}

#[test]
fn wrap_coords_reaches_the_row_from_anywhere() {
    assert_eq!((5, 0), Hex::wrap_coords(25, 0, 10));
    assert_eq!((5, 0), Hex::wrap_coords(-25, 0, 10));
    assert_eq!((-2, 4), Hex::wrap_coords(8, 4, 10));
    assert_eq!((7, 4), Hex::wrap_coords(-13, 4, 10));
    assert_eq!((0, 0), Hex::wrap_coords(1_000_000, 0, 1));
}

#[test]
fn new_hex_is_water_at_the_origin() {
    let hex = Hex::new();
    assert_eq!((hex.x, hex.y), (0, 0));
    assert_eq!(hex.terrain_type, HexType::Water);
    assert_eq!(hex.center(), (500_000, RATIO / 2));
    assert_eq!(hex.center_y, 577_350);
    let same = Hex::default();
    assert_eq!((same.x, same.y, same.terrain_type, same.center()), (0, 0, HexType::Water, hex.center()));
}

#[test]
fn from_coords_places_the_centre() {
    let even = Hex::from_coords(3, 2);
    assert_eq!((even.center_x, even.center_y), (4_500_000, 8 * 288_675));
    let odd = Hex::from_coords(1, 1);
    assert_eq!((odd.center_x, odd.center_y), (2_000_000, 1_443_375));
    let above = Hex::from_coords(0, -1);
    assert_eq!((above.center_x, above.center_y), (1_000_000, -288_675));
    assert_eq!(odd.terrain_type, HexType::Water);
}

#[test]
fn distance_is_half_the_sum_of_cube_differences() {
    let a = Hex::from_coords(0, 0);
    let b = Hex::from_coords(2, 3);
    assert_eq!(a.distance_to(&b), 5);
    let c = Hex::from_coords(-2, 3);
    assert_eq!(a.distance_to(&c), 3);
    assert_eq!(Hex::distance_between(4, 1, 1, 4), 3);
    assert_eq!(Hex::distance_between(i32::MIN, 0, i32::MAX, 0), 4_294_967_295);
}

#[test]
fn distance_is_symmetric_and_zero_on_itself() {
    for ax in -3..4 {
        for ay in 0..5 {
            let a = Hex::from_coords(ax, ay);
            assert_eq!(a.distance_to(&a), 0);
            for bx in -3..4 {
                for by in 0..5 {
                    let b = Hex::from_coords(bx, by);
                    assert_eq!(a.distance_to(&b), b.distance_to(&a));
                }
            }
        }
    }
}

#[test]
fn neighbours_in_the_middle_of_the_map() {
    let map = HexMap::new(5, 5);
    let hex = Hex::from_coords(1, 2);
    assert_eq!(
        hex.get_neighbours(&map),
        vec![(1, 3), (0, 3), (0, 2), (1, 1), (2, 1), (2, 2)]
    );
    assert_eq!(hex.get_neighbours_unchecked(&map), hex.get_neighbours(&map));
}

#[test]
fn neighbours_at_the_edges_of_the_map() {
    let map = HexMap::new(4, 4);
    let top_left = Hex::from_coords(0, 0);
    assert_eq!(top_left.get_neighbours(&map), vec![(0, 1), (3, 1), (3, 0), (1, 0)]);
    let bottom_right = Hex::from_coords(2, 3);
    assert_eq!(bottom_right.get_neighbours(&map), vec![(1, 3), (2, 2), (-1, 2), (-1, 3)]);
    assert_eq!(
        top_left.get_neighbours_unchecked(&map),
        vec![(0, 1), (3, 1), (3, 0), (0, -1), (1, -1), (1, 0)]
    );
    let single = HexMap::new(3, 1);
    assert_eq!(Hex::from_coords(0, 0).get_neighbours(&single), vec![(2, 0), (1, 0)]);
}

#[test]
fn neighbourhood_is_symmetric() {
    for (size_x, size_y) in [(1u32, 1u32), (1, 4), (2, 3), (4, 4), (5, 7)] {
        let map = HexMap::new(size_x, size_y);
        for hex in &map.field {
            for (x, y) in hex.get_neighbours(&map) {
                assert!(map.coords_to_index(x, y).is_ok());
                let back = Hex::from_coords(x, y).get_neighbours(&map);
                assert!(back.contains(&(hex.x, hex.y)));
            }
        }
    }
}

#[test]
fn ring_of_radius_one() {
    let map = HexMap::new(5, 5);
    let hex = Hex::from_coords(1, 2);
    assert_eq!(
        hex.get_ring(&map, 1),
        vec![(2, 1), (2, 2), (1, 3), (0, 3), (0, 2), (1, 1)]
    );
    assert_eq!(hex.get_ring(&map, 0), vec![]);
}

#[test]
fn ring_has_six_tiles_per_step_unless_cut() {
    let map = HexMap::new(20, 20);
    let middle = Hex::from_coords(0, 10);
    for radius in 1..10u32 {
        let ring = middle.get_ring(&map, radius);
        assert_eq!(ring.len(), 6 * radius as usize);
        for (x, y) in ring {
            assert!(map.coords_to_index(x, y).is_ok());
        }
    }
    let top = Hex::from_coords(3, 0);
    assert_eq!(top.get_ring(&map, 2), vec![(5, 0), (4, 1), (3, 2), (2, 2), (1, 2), (1, 1), (1, 0)]);
    assert!(top.get_ring(&map, 4).len() < 24);
    let flat = HexMap::new(3, 1);
    assert_eq!(
        Hex::from_coords(0, 0).get_ring(&flat, 4),
        vec![(1, 0), (2, 0)]
    );
}

#[test]
fn ring_tiles_are_at_the_radius() {
    let map = HexMap::new(30, 30);
    let middle = Hex::from_coords(5, 12);
    for radius in 1..6u32 {
        for (x, y) in middle.get_ring(&map, radius) {
            assert_eq!(middle.distance_to(&Hex::from_coords(x, y)), radius as i32);
        }
    }
}

#[test]
fn ring_lists_every_tile_at_the_radius() {
    let map = HexMap::new(30, 30);
    let middle = Hex::from_coords(5, 12);
    for radius in 1..6u32 {
        let ring = middle.get_ring(&map, radius);
        for hex in &map.field {
            if middle.distance_to(hex) == radius as i32 {
                assert!(ring.contains(&(hex.x, hex.y)));
            }
        }
    }
}

#[test]
fn ring_meets_no_tile_twice_unless_it_wraps() {
    let map = HexMap::new(30, 30);
    let middle = Hex::from_coords(5, 12);
    for radius in 1..10u32 {
        let ring = middle.get_ring(&map, radius);
        for (k, tile) in ring.iter().enumerate() {
            assert!(!ring[..k].contains(tile));
        }
    }
    // a ring of radius 2 runs around a map that is 3 tiles wide
    let narrow = HexMap::new(3, 9);
    let ring = Hex::from_coords(0, 4).get_ring(&narrow, 2);
    assert_eq!(ring.len(), 12);
    assert!(ring.iter().enumerate().any(|(k, tile)| ring[..k].contains(tile)));
}

#[test]
fn spiral_is_the_rings_in_order() {
    let map = HexMap::new(9, 9);
    let hex = Hex::from_coords(2, 4);
    assert_eq!(hex.get_spiral(&map, 0), vec![]);
    let mut expected = hex.get_ring(&map, 1);
    expected.extend(hex.get_ring(&map, 2));
    expected.extend(hex.get_ring(&map, 3));
    assert_eq!(hex.get_spiral(&map, 3), expected);
    assert_eq!(hex.get_spiral(&map, 3).len(), 36);
}

#[test]
fn terrain_of_a_roll() {
    assert_eq!(HexType::from_roll(0), HexType::Field);
    assert_eq!(HexType::from_roll(1), HexType::Forest);
    assert_eq!(HexType::from_roll(2), HexType::Desert);
    assert_eq!(HexType::from_roll(3), HexType::Tundra);
    assert_eq!(HexType::from_roll(4), HexType::Water);
    assert_eq!(HexType::from_roll(5), HexType::Ocean);
    assert_eq!(HexType::from_roll(6), HexType::Mountain);
    assert_eq!(HexType::from_roll(7), HexType::Impassable);
    assert_eq!(HexType::from_roll(8), HexType::Ice);
    assert_eq!(HexType::from_roll(9), HexType::Jungle);
    assert_eq!(HexType::from_roll(u64::MAX), HexType::Jungle);
}

#[test]
fn sampled_terrain_is_one_of_the_first_nine() {
    let mut rng = StdRng::from_seed([7u8; 32]);
    let mut seen = Vec::new();
    for _ in 0..500 {
        let terrain = HexType::sample(&mut rng);
        assert_ne!(terrain, HexType::Jungle);
        assert!((0..9).any(|roll| HexType::from_roll(roll) == terrain));
        if !seen.contains(&terrain) {
            seen.push(terrain);
        }
    }
    assert_eq!(seen.len(), 9);
}
