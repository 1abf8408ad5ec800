use rogue_core::ai::MonsterAI;
use rogue_core::combat::delete_the_dead;
use rogue_core::combat::DamageSystem;
use rogue_core::combat::MeleeCombatSystem;
use rogue_core::map::GameMap;
use rogue_core::map::TileType;
use rogue_core::visibility::VisibilitySystem;
use rogue_core::world::World;

fn open_map(width: i32, height: i32) -> GameMap {
    let count = (width * height) as usize;
    let mut tiles = vec![TileType::Floor; count];
    for x in 0..width {
        tiles[x as usize] = TileType::Wall;
        tiles[((height - 1) * width + x) as usize] = TileType::Wall;
    }
    for y in 0..height {
        tiles[(y * width) as usize] = TileType::Wall;
        tiles[(y * width + width - 1) as usize] = TileType::Wall;
    }
    GameMap {
        tiles,
        rooms: Vec::new(),
        width,
        height,
        revealed_tiles: vec![false; count],
        visible_tiles: vec![false; count],
        blocked: vec![false; count],
        tile_content: vec![Vec::new(); count],
    }
}

#[test]
fn melee_queues_power_minus_defense() {
    // Attacker power 5 against defense 2 queues exactly 3 damage, and the
    // damage stage then drops the defender from 10 to 7 hit points.
    let mut w = World::new(open_map(12, 12), 5, 5, 8, 30, 2, 5);
    let m = w.spawn_monster(6, 5, 8, 10, 2, 4);
    w.queue_melee(0, m);
    MeleeCombatSystem::run(&mut w);
    assert_eq!(w.pending_damage[m].len(), 1);
    assert_eq!(w.pending_damage[m][0], 3);
    DamageSystem::run(&mut w);
    assert_eq!(w.stats[m].unwrap().hp, 7);
    assert_eq!(w.pending_damage[m].len(), 0);
}

#[test]
fn melee_damage_is_at_least_one() {
    let mut w = World::new(open_map(12, 12), 5, 5, 8, 30, 2, 5);
    let m = w.spawn_monster(6, 5, 8, 10, 2, 4);
    // Monster power 4 against player defense 2 gives 2; a weak attacker
    // against heavy armor still queues 1.
    let tank = w.spawn_monster(4, 5, 8, 10, 99, 1);
    w.queue_melee(m, tank);
    MeleeCombatSystem::run(&mut w);
    assert_eq!(w.pending_damage[tank].len(), 1);
    assert_eq!(w.pending_damage[tank][0], 1);
}

#[test]
fn queued_damage_applies_in_order_and_clamps_at_zero() {
    // hp 10 with queued [3, 4] ends at 3; hp 5 with the same queue ends at
    // 0, never below.
    let mut w = World::new(open_map(12, 12), 5, 5, 8, 30, 0, 5);
    let a = w.spawn_monster(6, 5, 8, 10, 0, 4);
    let b = w.spawn_monster(7, 5, 8, 5, 0, 4);
    w.pending_damage[a].push(3);
    w.pending_damage[a].push(4);
    w.pending_damage[b].push(3);
    w.pending_damage[b].push(4);
    DamageSystem::run(&mut w);
    assert_eq!(w.stats[a].unwrap().hp, 3);
    assert_eq!(w.stats[b].unwrap().hp, 0);
}

#[test]
fn dead_monsters_are_removed_at_commit_but_player_stays() {
    let mut w = World::new(open_map(12, 12), 5, 5, 8, 30, 0, 5);
    let m = w.spawn_monster(6, 5, 8, 3, 0, 4);
    w.pending_damage[m].push(5);
    w.pending_damage[0].push(99);
    DamageSystem::run(&mut w);
    let player_dead = delete_the_dead(&mut w);
    assert!(player_dead);
    w.commit_removals();
    assert!(!w.alive[m]);
    assert!(w.positions[m].is_none());
    assert!(w.alive[0]);
}

#[test]
fn confused_monster_skips_exactly_its_turns() {
    // A monster adjacent to the player with Confusion(3) takes no action
    // for exactly three turns, then attacks again.
    let mut w = World::new(open_map(12, 12), 5, 5, 8, 30, 2, 5);
    let m = w.spawn_monster(6, 5, 8, 10, 2, 4);
    w.confusion[m] = Some(3);
    for turn in 0..3 {
        VisibilitySystem::run(&mut w);
        MonsterAI::run(&mut w);
        assert!(w.melee_targets[m].is_none(), "acted while confused on turn {}", turn);
        assert_eq!(w.positions[m].unwrap().x, 6);
    }
    assert!(w.confusion[m].is_none());
    VisibilitySystem::run(&mut w);
    MonsterAI::run(&mut w);
    assert_eq!(w.melee_targets[m], Some(0));
}

#[test]
fn monster_advances_toward_seen_player() {
    let mut w = World::new(open_map(14, 14), 4, 4, 10, 30, 2, 5);
    let m = w.spawn_monster(8, 4, 10, 10, 2, 4);
    VisibilitySystem::run(&mut w);
    MonsterAI::run(&mut w);
    let p = w.positions[m].unwrap();
    assert_eq!((p.x, p.y), (7, 4));
    assert!(w.melee_targets[m].is_none());
    // Its viewshed is dirty again after the move.
    assert!(w.viewsheds[m].as_ref().unwrap().dirty);
}

#[test]
fn move_onto_wall_is_refused() {
    let mut w = World::new(open_map(10, 10), 1, 1, 8, 30, 2, 5);
    let moved = w.try_move_entity(0, -1, 0);
    assert!(!moved);
    assert_eq!(w.positions[0].unwrap().x, 1);
    let moved_ok = w.try_move_entity(0, 1, 0);
    assert!(moved_ok);
    assert_eq!(w.positions[0].unwrap().x, 2);
}

#[test]
fn revealed_grows_and_visible_stays_subset() {
    // The player's revealed set only ever grows across turns, and the
    // visible set is always a subset of it.
    let mut w = World::new(open_map(20, 20), 5, 5, 4, 30, 2, 5);
    VisibilitySystem::run(&mut w);
    let first_revealed = w.map.revealed_tiles.clone();
    for i in 0..w.map.tiles.len() {
        if w.map.visible_tiles[i] {
            assert!(w.map.revealed_tiles[i]);
        }
    }
    assert!(w.map.visible_tiles[w.map.xy_idx(5, 5)]);
    // Move the player and recompute: old knowledge is kept.
    let moved = w.try_move_entity(0, 1, 0);
    assert!(moved);
    VisibilitySystem::run(&mut w);
    for i in 0..w.map.tiles.len() {
        if first_revealed[i] {
            assert!(w.map.revealed_tiles[i], "revealed tile was forgotten");
        }
        if w.map.visible_tiles[i] {
            assert!(w.map.revealed_tiles[i]);
        }
    }
}

#[test]
fn clean_viewshed_is_not_recomputed() {
    let mut w = World::new(open_map(20, 20), 5, 5, 4, 30, 2, 5);
    VisibilitySystem::run(&mut w);
    let vis_before = w.map.visible_tiles.clone();
    // Mutate the map behind the viewshed's back; with a clean flag the
    // stored set must stay as it is for the rest of the turn.
    let wall = w.map.xy_idx(7, 5);
    w.map.tiles[wall] = TileType::Wall;
    VisibilitySystem::run(&mut w);
    assert_eq!(w.map.visible_tiles, vis_before);
}

#[test]
fn melee_intent_of_dead_attacker_is_dropped() {
    let mut w = World::new(open_map(12, 12), 5, 5, 8, 30, 2, 5);
    let m = w.spawn_monster(6, 5, 8, 10, 2, 4);
    w.queue_melee(m, 0);
    w.pending_deletes.push(m);
    w.commit_removals();
    MeleeCombatSystem::run(&mut w);
    assert_eq!(w.pending_damage[0].len(), 0);
    assert!(w.melee_targets[m].is_none());
}
