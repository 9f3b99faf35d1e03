use enigmap::generators::{clear_pass, count_neighbours, seed_to_rng_seed, snapshot_types};
use enigmap::hex::HexType;
use enigmap::hexmap::HexMap;
use enigmap::renderers::LineState;

fn map_of(size_x: u32, size_y: u32, rows: &[&str]) -> HexMap {
    let mut map = HexMap::new(size_x, size_y);
    let types: Vec<HexType> = rows
        .iter()
        .flat_map(|row| row.chars())
        .map(|c| match c {
            'o' => HexType::Ocean,
            'i' => HexType::Ice,
            'f' => HexType::Field,
            _ => HexType::Water,
        })
        .collect();
    map.retype(&types);
    map
}

#[test]
fn seed_bytes_repeat() {
    let bytes = seed_to_rng_seed(0x0403_0201);
    for i in 0..32 {
        assert_eq!(bytes[i], (i % 4) as u8 + 1);
    }
    assert_eq!(seed_to_rng_seed(0), [0u8; 32]);
    assert_eq!(seed_to_rng_seed(u32::MAX), [255u8; 32]);
}

#[test]
fn snapshot_holds_the_terrain() {
    let map = map_of(3, 2, &["oif", "wwo"]);
    assert_eq!(
        snapshot_types(&map),
        vec![
            HexType::Ocean,
            HexType::Ice,
            HexType::Field,
            HexType::Water,
            HexType::Water,
            HexType::Ocean
        ]
    );
}

#[test]
fn neighbours_of_a_terrain_are_counted() {
    let map = map_of(4, 4, &["ffoo", "ofoo", "ofoo", "oooo"]);
    let types = snapshot_types(&map);
    assert_eq!(count_neighbours(&map, &types, 5, HexType::Field), 2);
    assert_eq!(count_neighbours(&map, &types, 5, HexType::Ocean), 4);
    assert_eq!(count_neighbours(&map, &types, 0, HexType::Field), 1);
    assert_eq!(count_neighbours(&map, &types, 0, HexType::Ocean), 3);
    assert_eq!(count_neighbours(&map, &types, 15, HexType::Ocean), 4);
    let single = map_of(1, 1, &["f"]);
    assert_eq!(count_neighbours(&single, &snapshot_types(&single), 0, HexType::Field), 2);
}

#[test]
fn clear_pass_removes_speckles() {
    let mut map = map_of(5, 5, &["ooooo", "ooooo", "oofoo", "ooooo", "ooooo"]);
    clear_pass(&mut map, HexType::Field, HexType::Ocean, 3);
    assert!(map.field.iter().all(|hex| hex.terrain_type == HexType::Ocean));
}

#[test]
fn clear_pass_keeps_clusters() {
    // a tile with its six neighbours: every tile has three like neighbours
    let rows = ["ooooo", "offoo", "offfo", "offoo", "ooooo"];
    let mut map = map_of(5, 5, &rows);
    clear_pass(&mut map, HexType::Field, HexType::Ocean, 3);
    assert_eq!(snapshot_types(&map), snapshot_types(&map_of(5, 5, &rows)));
    clear_pass(&mut map, HexType::Field, HexType::Ocean, 4);
    assert_eq!(
        snapshot_types(&map),
        snapshot_types(&map_of(5, 5, &["ooooo", "ooooo", "oofoo", "ooooo", "ooooo"]))
    );
}

#[test]
fn clear_pass_wears_down_thin_clusters() {
    let mut map = map_of(5, 5, &["ooooo", "offoo", "offoo", "ofooo", "ooooo"]);
    clear_pass(&mut map, HexType::Field, HexType::Ocean, 3);
    assert_eq!(
        snapshot_types(&map),
        snapshot_types(&map_of(5, 5, &["ooooo", "ofooo", "offoo", "ooooo", "ooooo"]))
    );
    clear_pass(&mut map, HexType::Field, HexType::Ocean, 3);
    assert!(map.field.iter().all(|hex| hex.terrain_type == HexType::Ocean));
}

#[test]
fn clear_pass_judges_by_the_terrain_before_the_pass() {
    // a line of three: each end has one like neighbour, the middle two
    let mut map = map_of(5, 3, &["ooooo", "offfo", "ooooo"]);
    clear_pass(&mut map, HexType::Field, HexType::Ocean, 2);
    assert_eq!(
        snapshot_types(&map),
        snapshot_types(&map_of(5, 3, &["ooooo", "oofoo", "ooooo"]))
    );
}

#[test]
fn clear_pass_asks_less_of_the_edge_rows() {
    let mut map = map_of(4, 3, &["iiii", "oooo", "iioo"]);
    clear_pass(&mut map, HexType::Ice, HexType::Ocean, 3);
    // two like neighbours are enough in the top row, one is not in the bottom row
    assert_eq!(
        snapshot_types(&map),
        snapshot_types(&map_of(4, 3, &["iiii", "oooo", "oooo"]))
    );
    let mut strict = map_of(4, 3, &["iiii", "oooo", "iioo"]);
    clear_pass(&mut strict, HexType::Ice, HexType::Ocean, 4);
    assert!(strict.field.iter().all(|hex| hex.terrain_type == HexType::Ocean));
    let mut lax = map_of(4, 3, &["iiii", "oooo", "iioo"]);
    clear_pass(&mut lax, HexType::Ice, HexType::Ocean, 0);
    assert_eq!(
        snapshot_types(&lax),
        snapshot_types(&map_of(4, 3, &["iiii", "oooo", "iioo"]))
    );
}

#[test]
fn line_state_enters_and_leaves_once() {
    let mut state = LineState::BeforeHex;
    state.update(false);
    assert_eq!(state, LineState::BeforeHex);
    state.update(true);
    assert_eq!(state, LineState::InHex);
    state.update(true);
    assert_eq!(state, LineState::InHex);
    state.update(false);
    assert_eq!(state, LineState::AfterHex);
    state.update(true);
    assert_eq!(state, LineState::AfterHex);
    state.update(false);
    assert_eq!(state, LineState::AfterHex);
    state.reset();
    assert_eq!(state, LineState::BeforeHex);
}
