use rogue_core::fov::field_of_view;
use rogue_core::map::GameMap;
use rogue_core::map::TileType;
use rogue_core::map::MAP_HEIGHT;
use rogue_core::map::MAP_WIDTH;

fn open_map(width: i32, height: i32) -> GameMap {
    let count = (width * height) as usize;
    let mut tiles = vec![TileType::Floor; count];
    for x in 0..width {
        tiles[x as usize] = TileType::Wall;
        tiles[((height - 1) * width + x) as usize] = TileType::Wall;
    }
    for y in 0..height {
        tiles[(y * width) as usize] = TileType::Wall;
        tiles[(y * width + width - 1) as usize] = TileType::Wall;
    }
    GameMap {
        tiles,
        rooms: Vec::new(),
        width,
        height,
        revealed_tiles: vec![false; count],
        visible_tiles: vec![false; count],
        blocked: vec![false; count],
        tile_content: vec![Vec::new(); count],
    }
}

fn generate(seed: u64) -> GameMap {
    let mut rng = rltk::RandomNumberGenerator::seeded(seed);
    GameMap::new_map_rooms_and_corridors(&mut rng)
}

#[test]
fn xy_idx_is_row_major() {
    let map = open_map(10, 8);
    assert_eq!(map.xy_idx(3, 2), 23);
    assert_eq!(map.xy_idx(0, 0), 0);
    assert_eq!(map.xy_idx(9, 7), 79);
}

#[test]
fn generator_produces_rooms_inside_border() {
    let map = generate(42);
    assert!(map.rooms.len() >= 1);
    assert!(map.rooms.len() <= 30);
    for r in map.rooms.iter() {
        assert!(r.x1 >= 0 && r.x2 <= MAP_WIDTH - 2);
        assert!(r.y1 >= 0 && r.y2 <= MAP_HEIGHT - 2);
        // widths and heights stay in the configured 6..10 bounds
        assert!(r.x2 - r.x1 >= 6 && r.x2 - r.x1 < 10);
        assert!(r.y2 - r.y1 >= 6 && r.y2 - r.y1 < 10);
    }
}

#[test]
fn generator_room_tiles_are_floor() {
    let map = generate(42);
    for r in map.rooms.iter() {
        for y in (r.y1 + 1)..=r.y2 {
            for x in (r.x1 + 1)..=r.x2 {
                assert_eq!(map.tiles[map.xy_idx(x, y)], TileType::Floor);
            }
        }
    }
}

#[test]
fn generator_rooms_do_not_overlap() {
    for seed in [1u64, 7, 42, 12345] {
        let map = generate(seed);
        for i in 0..map.rooms.len() {
            for j in 0..map.rooms.len() {
                if i != j {
                    assert!(!map.rooms[i].intersects(&map.rooms[j]));
                }
            }
        }
    }
}

#[test]
fn generator_is_deterministic_per_seed() {
    let a = generate(99);
    let b = generate(99);
    assert_eq!(a.tiles.len(), b.tiles.len());
    for i in 0..a.tiles.len() {
        assert_eq!(a.tiles[i], b.tiles[i]);
    }
    assert_eq!(a.rooms.len(), b.rooms.len());
    for i in 0..a.rooms.len() {
        assert_eq!(a.rooms[i], b.rooms[i]);
    }
}

#[test]
fn generator_keeps_border_walls() {
    let map = generate(7);
    for x in 0..MAP_WIDTH {
        assert_eq!(map.tiles[map.xy_idx(x, 0)], TileType::Wall);
        assert_eq!(map.tiles[map.xy_idx(x, MAP_HEIGHT - 1)], TileType::Wall);
    }
    for y in 0..MAP_HEIGHT {
        assert_eq!(map.tiles[map.xy_idx(0, y)], TileType::Wall);
        assert_eq!(map.tiles[map.xy_idx(MAP_WIDTH - 1, y)], TileType::Wall);
    }
}

#[test]
fn generator_rooms_are_floor_connected() {
    // Every accepted room must be reachable from room 0 over 4-connected
    // floor tiles.
    for seed in [3u64, 42, 2024] {
        let map = generate(seed);
        let count = map.tiles.len();
        let w = map.width as usize;
        let (sx, sy) = map.rooms[0].center();
        let start = map.xy_idx(sx, sy);
        assert_eq!(map.tiles[start], TileType::Floor);
        let mut seen = vec![false; count];
        let mut stack = vec![start];
        seen[start] = true;
        while let Some(i) = stack.pop() {
            let x = i % w;
            let y = i / w;
            let mut neighbors = Vec::new();
            if x > 0 {
                neighbors.push(i - 1);
            }
            if x + 1 < w {
                neighbors.push(i + 1);
            }
            if y > 0 {
                neighbors.push(i - w);
            }
            if (i + w) < count {
                neighbors.push(i + w);
            }
            for n in neighbors {
                if !seen[n] && map.tiles[n] == TileType::Floor {
                    seen[n] = true;
                    stack.push(n);
                }
            }
        }
        for r in map.rooms.iter() {
            let (cx, cy) = r.center();
            assert!(seen[map.xy_idx(cx, cy)], "room center unreachable from room 0");
        }
    }
}

#[test]
fn fov_open_floor_is_symmetric_disc() {
    let map = open_map(20, 20);
    let vis = field_of_view(&map, 10, 10, 3);
    assert!(vis[map.xy_idx(10, 10)]);
    assert!(vis[map.xy_idx(13, 10)]);
    assert!(vis[map.xy_idx(10, 7)]);
    assert!(!vis[map.xy_idx(14, 10)]);
    assert!(!vis[map.xy_idx(13, 13)]);
}

#[test]
fn fov_wall_occludes_line() {
    let mut map = open_map(20, 20);
    let wall = map.xy_idx(10, 10);
    map.tiles[wall] = TileType::Wall;
    let vis = field_of_view(&map, 8, 10, 4);
    // The wall itself is visible, but the tile straight behind it is not.
    assert!(vis[map.xy_idx(10, 10)]);
    assert!(!vis[map.xy_idx(11, 10)]);
    assert!(!vis[map.xy_idx(12, 10)]);
    // Without the wall the same tile is visible.
    map.tiles[wall] = TileType::Floor;
    let vis2 = field_of_view(&map, 8, 10, 4);
    assert!(vis2[map.xy_idx(11, 10)]);
}

#[test]
fn fov_radius_zero_sees_only_origin() {
    let map = open_map(12, 12);
    let vis = field_of_view(&map, 5, 5, 0);
    for i in 0..map.tiles.len() {
        assert_eq!(vis[i], i == map.xy_idx(5, 5));
    }
}
