use rogue_core::combat::DamageSystem;
use rogue_core::inventory::ItemCollectionSystem;
use rogue_core::inventory::ItemDropSystem;
use rogue_core::items::ItemUseSystem;
use rogue_core::map::GameMap;
use rogue_core::map::TileType;
use rogue_core::spatial::MapIndexingSystem;
use rogue_core::turn::run_systems;
use rogue_core::world::LogEvent;
use rogue_core::world::Position;
use rogue_core::world::World;

fn open_map(width: i32, height: i32) -> GameMap {
    let count = (width * height) as usize;
    let mut tiles = vec![TileType::Floor; count];
    for x in 0..width {
        tiles[x as usize] = TileType::Wall;
        tiles[((height - 1) * width + x) as usize] = TileType::Wall;
    }
    for y in 0..height {
        tiles[(y * width) as usize] = TileType::Wall;
        tiles[(y * width + width - 1) as usize] = TileType::Wall;
    }
    GameMap {
        tiles,
        rooms: Vec::new(),
        width,
        height,
        revealed_tiles: vec![false; count],
        visible_tiles: vec![false; count],
        blocked: vec![false; count],
        tile_content: vec![Vec::new(); count],
    }
}

#[test]
fn healing_never_exceeds_max_hp() {
    // hp 4 of max 10, healed by 8, ends at exactly 10.
    let mut w = World::new(open_map(12, 12), 5, 5, 8, 10, 2, 5);
    w.stats[0] = Some(rogue_core::world::CombatStats { hp: 4, max_hp: 10, defense: 2, power: 5 });
    let potion = w.spawn_item_carried(0, true, Some(8), None, None, None);
    w.queue_use(0, potion, None);
    let mut log: Vec<LogEvent> = Vec::new();
    ItemUseSystem::run(&mut w, &mut log);
    assert_eq!(w.stats[0].unwrap().hp, 10);
    assert_eq!(log.len(), 1);
    assert_eq!(log[0], LogEvent::Healed { item: potion, target: 0, amount: 8 });
    // The consumable was used up: it is scheduled and gone after commit.
    assert_eq!(w.pending_deletes.len(), 1);
    w.commit_removals();
    assert!(!w.alive[potion]);
}

#[test]
fn healing_item_without_valid_target_is_kept() {
    // A potion used on a tile with no combat-stats occupant applies no
    // effect, so it is not consumed.
    let mut w = World::new(open_map(12, 12), 5, 5, 8, 10, 2, 5);
    let potion = w.spawn_item_carried(0, true, Some(8), None, None, None);
    MapIndexingSystem::run(&mut w);
    w.queue_use(0, potion, Some(Position { x: 8, y: 8 }));
    let mut log: Vec<LogEvent> = Vec::new();
    ItemUseSystem::run(&mut w, &mut log);
    assert_eq!(w.pending_deletes.len(), 0);
    assert!(w.alive[potion]);
    assert_eq!(log.len(), 0);
}

#[test]
fn damage_item_queues_for_next_combat_stage() {
    let mut w = World::new(open_map(12, 12), 5, 5, 8, 10, 2, 5);
    let m = w.spawn_monster(8, 8, 8, 10, 0, 4);
    let scroll = w.spawn_item_carried(0, true, None, Some(6), None, None);
    MapIndexingSystem::run(&mut w);
    w.queue_use(0, scroll, Some(Position { x: 8, y: 8 }));
    let mut log: Vec<LogEvent> = Vec::new();
    ItemUseSystem::run(&mut w, &mut log);
    // Queued, not yet applied.
    assert_eq!(w.stats[m].unwrap().hp, 10);
    assert_eq!(w.pending_damage[m].len(), 1);
    assert_eq!(w.pending_damage[m][0], 6);
    assert_eq!(log.len(), 1);
    DamageSystem::run(&mut w);
    assert_eq!(w.stats[m].unwrap().hp, 4);
}

#[test]
fn confusion_item_replaces_component() {
    let mut w = World::new(open_map(12, 12), 5, 5, 8, 10, 2, 5);
    let m = w.spawn_monster(8, 8, 8, 10, 0, 4);
    w.confusion[m] = Some(1);
    let scroll = w.spawn_item_carried(0, true, None, None, None, Some(4));
    MapIndexingSystem::run(&mut w);
    w.queue_use(0, scroll, Some(Position { x: 8, y: 8 }));
    let mut log: Vec<LogEvent> = Vec::new();
    ItemUseSystem::run(&mut w, &mut log);
    assert_eq!(w.confusion[m], Some(4));
    assert_eq!(log.len(), 1);
    assert_eq!(log[0], LogEvent::Confused { item: scroll, target: m });
}

#[test]
fn blast_radius_zero_hits_exactly_target_tile() {
    // With radius 0 the blast covers one tile: its occupants and nobody
    // else.
    let mut w = World::new(open_map(14, 14), 2, 2, 8, 10, 2, 5);
    let a = w.spawn_monster(8, 8, 8, 10, 0, 4);
    let _b = w.spawn_monster(9, 8, 8, 10, 0, 4);
    let bomb = w.spawn_item_carried(0, true, None, Some(5), Some(0), None);
    MapIndexingSystem::run(&mut w);
    let targets = ItemUseSystem::resolve_use_targets(&w, 0, bomb, Some(Position { x: 8, y: 8 }));
    assert_eq!(targets, vec![a]);
}

#[test]
fn blast_never_reaches_outside_interior() {
    // A big blast aimed next to the border hits interior occupants only.
    let mut w = World::new(open_map(14, 14), 5, 5, 8, 10, 2, 5);
    let inner = w.spawn_monster(2, 2, 8, 10, 0, 4);
    // An entity parked on the border wall tile is never part of a blast.
    let outer = w.spawn_monster(0, 2, 8, 10, 0, 4);
    let bomb = w.spawn_item_carried(0, true, None, Some(5), Some(6), None);
    MapIndexingSystem::run(&mut w);
    let targets = ItemUseSystem::resolve_use_targets(&w, 0, bomb, Some(Position { x: 2, y: 2 }));
    assert!(targets.contains(&inner));
    assert!(!targets.contains(&outer));
}

#[test]
fn blast_with_positive_radius_covers_neighbors() {
    let mut w = World::new(open_map(14, 14), 2, 2, 8, 10, 2, 5);
    let a = w.spawn_monster(8, 8, 8, 10, 0, 4);
    let b = w.spawn_monster(9, 8, 8, 10, 0, 4);
    let far = w.spawn_monster(12, 12, 8, 10, 0, 4);
    let bomb = w.spawn_item_carried(0, true, None, Some(5), Some(1), None);
    MapIndexingSystem::run(&mut w);
    let targets = ItemUseSystem::resolve_use_targets(&w, 0, bomb, Some(Position { x: 8, y: 8 }));
    assert!(targets.contains(&a));
    assert!(targets.contains(&b));
    assert!(!targets.contains(&far));
}

#[test]
fn use_without_target_affects_the_user() {
    let mut w = World::new(open_map(12, 12), 5, 5, 8, 10, 2, 5);
    let potion = w.spawn_item_carried(0, true, Some(3), None, None, None);
    let targets = ItemUseSystem::resolve_use_targets(&w, 0, potion, None);
    assert_eq!(targets, vec![0]);
}

#[test]
fn pickup_then_drop_restores_position() {
    // Round trip: picked up by the entity standing on the item's tile and
    // dropped the same turn, the item is back at its original position.
    let mut w = World::new(open_map(12, 12), 4, 4, 8, 10, 2, 5);
    let item = w.spawn_item_at(4, 4, true, Some(2), None, None, None);
    let original = w.positions[item];
    let mut log: Vec<LogEvent> = Vec::new();
    w.queue_pickup(item, 0);
    ItemCollectionSystem::run(&mut w, &mut log);
    assert!(w.positions[item].is_none());
    assert_eq!(w.backpack[item], Some(0));
    assert_eq!(log.len(), 1);
    assert_eq!(log[0], LogEvent::PickedUp { item });
    w.queue_drop(0, item);
    ItemDropSystem::run(&mut w, &mut log);
    assert_eq!(w.positions[item], original);
    assert!(w.backpack[item].is_none());
    assert_eq!(log.len(), 2);
    assert_eq!(log[1], LogEvent::Dropped { item });
}

#[test]
fn stale_pickup_and_drop_are_noops() {
    let mut w = World::new(open_map(12, 12), 4, 4, 8, 10, 2, 5);
    let carried = w.spawn_item_carried(0, true, Some(2), None, None, None);
    let mut log: Vec<LogEvent> = Vec::new();
    // Picking up something already carried changes nothing.
    w.queue_pickup(carried, 0);
    ItemCollectionSystem::run(&mut w, &mut log);
    assert_eq!(w.backpack[carried], Some(0));
    assert!(w.positions[carried].is_none());
    // Dropping something that is not carried changes nothing.
    let grounded = w.spawn_item_at(6, 6, true, Some(2), None, None, None);
    w.queue_drop(0, grounded);
    ItemDropSystem::run(&mut w, &mut log);
    assert_eq!(w.positions[grounded], Some(Position { x: 6, y: 6 }));
    assert!(w.backpack[grounded].is_none());
    assert_eq!(log.len(), 0);
}

#[test]
fn monster_actions_are_not_narrated() {
    let mut w = World::new(open_map(12, 12), 5, 5, 8, 10, 2, 5);
    let m = w.spawn_monster(8, 8, 8, 10, 0, 4);
    let potion = w.spawn_item_carried(m, true, Some(8), None, None, None);
    w.stats[m] = Some(rogue_core::world::CombatStats { hp: 2, max_hp: 10, defense: 0, power: 4 });
    w.queue_use(m, potion, None);
    let mut log: Vec<LogEvent> = Vec::new();
    ItemUseSystem::run(&mut w, &mut log);
    assert_eq!(w.stats[m].unwrap().hp, 10);
    assert_eq!(log.len(), 0);
}

#[test]
fn full_turn_drains_every_queue() {
    let mut w = World::new(open_map(14, 14), 4, 4, 8, 30, 2, 5);
    let m = w.spawn_monster(8, 8, 8, 10, 0, 4);
    let item = w.spawn_item_at(4, 4, true, None, Some(3), None, None);
    let mut log: Vec<LogEvent> = Vec::new();
    w.queue_pickup(item, 0);
    w.queue_melee(0, m);
    let dead = run_systems(&mut w, &mut log);
    assert!(!dead);
    assert_eq!(w.pickup_queue.len(), 0);
    assert_eq!(w.drop_queue.len(), 0);
    assert_eq!(w.use_queue.len(), 0);
    assert_eq!(w.pending_deletes.len(), 0);
    assert_eq!(w.backpack[item], Some(0));
    // The melee swing went through: 5 power - 0 defense = 5 damage.
    assert_eq!(w.stats[m].unwrap().hp, 5);
}

#[test]
fn use_of_dead_item_is_dropped() {
    // A use request naming an entity that died this turn is a stale
    // reference: it is drained without any effect.
    let mut w = World::new(open_map(12, 12), 5, 5, 8, 10, 2, 5);
    w.stats[0] = Some(rogue_core::world::CombatStats { hp: 4, max_hp: 10, defense: 2, power: 5 });
    let potion = w.spawn_item_carried(0, true, Some(8), None, None, None);
    w.queue_use(0, potion, None);
    w.pending_deletes.push(potion);
    w.commit_removals();
    let mut log: Vec<LogEvent> = Vec::new();
    ItemUseSystem::run(&mut w, &mut log);
    assert_eq!(w.stats[0].unwrap().hp, 4);
    assert_eq!(w.use_queue.len(), 0);
    assert_eq!(log.len(), 0);
}

#[test]
fn mixed_queue_narrates_player_actions_only() {
    // With a monster's use request and the player's in the same queue,
    // exactly the player's applications are narrated, in order.
    let mut w = World::new(open_map(12, 12), 5, 5, 8, 10, 2, 5);
    let m = w.spawn_monster(8, 8, 8, 10, 0, 4);
    w.stats[m] = Some(rogue_core::world::CombatStats { hp: 2, max_hp: 10, defense: 0, power: 4 });
    w.stats[0] = Some(rogue_core::world::CombatStats { hp: 4, max_hp: 10, defense: 2, power: 5 });
    let monster_potion = w.spawn_item_carried(m, true, Some(3), None, None, None);
    let player_potion = w.spawn_item_carried(0, true, Some(3), None, None, None);
    w.queue_use(m, monster_potion, None);
    w.queue_use(0, player_potion, None);
    let mut log: Vec<LogEvent> = Vec::new();
    ItemUseSystem::run(&mut w, &mut log);
    assert_eq!(w.stats[m].unwrap().hp, 5);
    assert_eq!(w.stats[0].unwrap().hp, 7);
    assert_eq!(log.len(), 1);
    assert_eq!(log[0], LogEvent::Healed { item: player_potion, target: 0, amount: 3 });
}

#[test]
fn monster_pickup_and_drop_are_not_narrated() {
    let mut w = World::new(open_map(12, 12), 5, 5, 8, 10, 2, 5);
    let m = w.spawn_monster(8, 8, 8, 10, 0, 4);
    let item = w.spawn_item_at(8, 8, true, Some(2), None, None, None);
    let mut log: Vec<LogEvent> = Vec::new();
    w.queue_pickup(item, m);
    ItemCollectionSystem::run(&mut w, &mut log);
    assert_eq!(w.backpack[item], Some(m));
    w.queue_drop(m, item);
    ItemDropSystem::run(&mut w, &mut log);
    assert_eq!(w.positions[item], Some(Position { x: 8, y: 8 }));
    assert_eq!(log.len(), 0);
}
