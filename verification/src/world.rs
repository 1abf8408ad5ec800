//! Entities and their component stores.
//!
//! An entity is an opaque index.  Every component lives in its own sparse
//! store, a vector indexed by entity id; all stores always have the same
//! length.  Systems are plain functions over explicit stores, and entity
//! deletion is deferred: systems only schedule ids, and one commit point at
//! the end of the turn applies them all.

use vstd::prelude::*;

use crate::map::GameMap;

verus! {

/// Upper bound on hit points, damage, healing and confusion durations; it
/// keeps every combat computation far away from integer overflow.
pub const STAT_MAX: i32 = 100_000;

#[derive(Clone, Copy, PartialEq, Eq, Structural, Debug)]
pub struct Position {
    pub x: i32,
    pub y: i32,
}

/// What an entity currently sees: one flag per map tile, plus the sight
/// range and a dirty flag set whenever the owner moves.
pub struct Viewshed {
    pub visible_tiles: Vec<bool>,
    pub range: i32,
    pub dirty: bool,
}

#[derive(Clone, Copy, PartialEq, Eq, Structural, Debug)]
pub struct CombatStats {
    pub hp: i32,
    pub max_hp: i32,
    pub defense: i32,
    pub power: i32,
}

#[derive(Clone, Copy, PartialEq, Eq, Structural, Debug)]
pub struct PickupRequest {
    pub item: usize,
    pub collector: usize,
}

#[derive(Clone, Copy, PartialEq, Eq, Structural, Debug)]
pub struct DropRequest {
    pub dropper: usize,
    pub item: usize,
}

#[derive(Clone, Copy, PartialEq, Eq, Structural, Debug)]
pub struct UseRequest {
    pub user: usize,
    pub item: usize,
    pub target: Option<Position>,
}

/// Narration handed to the message-log collaborator; only player-initiated,
/// player-visible effects produce one.
#[derive(Clone, Copy, PartialEq, Eq, Structural, Debug)]
pub enum LogEvent {
    PickedUp { item: usize },
    Dropped { item: usize },
    Healed { item: usize, target: usize, amount: i32 },
    ItemDamage { item: usize, target: usize, amount: i32 },
    Confused { item: usize, target: usize },
}

pub struct World {
    pub map: GameMap,
    pub player: usize,
    pub alive: Vec<bool>,
    pub positions: Vec<Option<Position>>,
    pub viewsheds: Vec<Option<Viewshed>>,
    pub monsters: Vec<bool>,
    pub blockers: Vec<bool>,
    pub stats: Vec<Option<CombatStats>>,
    pub melee_targets: Vec<Option<usize>>,
    pub pending_damage: Vec<Vec<i32>>,
    pub items: Vec<bool>,
    pub consumables: Vec<bool>,
    pub healing: Vec<Option<i32>>,
    pub inflicts: Vec<Option<i32>>,
    pub aoe: Vec<Option<i32>>,
    pub confusion: Vec<Option<i32>>,
    pub backpack: Vec<Option<usize>>,
    pub pickup_queue: Vec<PickupRequest>,
    pub drop_queue: Vec<DropRequest>,
    pub use_queue: Vec<UseRequest>,
    pub pending_deletes: Vec<usize>,
}

pub open spec fn damage_list_ok(l: Seq<i32>) -> bool {
    forall|k: int| 0 <= k < l.len() ==> 0 <= #[trigger] l[k] <= STAT_MAX
}

pub open spec fn id_list_ok(l: Seq<usize>, n: int) -> bool {
    forall|k: int| 0 <= k < l.len() ==> #[trigger] l[k] < n
}

impl World {
    /// Number of entity slots ever created.
    pub open spec fn n(self) -> int {
        self.alive@.len() as int
    }

    pub open spec fn stores_sized(self) -> bool {
        &&& self.positions@.len() == self.n()
        &&& self.viewsheds@.len() == self.n()
        &&& self.monsters@.len() == self.n()
        &&& self.blockers@.len() == self.n()
        &&& self.stats@.len() == self.n()
        &&& self.melee_targets@.len() == self.n()
        &&& self.pending_damage@.len() == self.n()
        &&& self.items@.len() == self.n()
        &&& self.consumables@.len() == self.n()
        &&& self.healing@.len() == self.n()
        &&& self.inflicts@.len() == self.n()
        &&& self.aoe@.len() == self.n()
        &&& self.confusion@.len() == self.n()
        &&& self.backpack@.len() == self.n()
    }

    /// Per-entity component validity, including the rule that a live item
    /// has exactly one of a map position and a backpack owner.
    pub open spec fn entity_ok(self, e: int) -> bool {
        &&& (self.positions@[e] is Some ==> self.map.in_bounds(
            self.positions@[e]->0.x as int,
            self.positions@[e]->0.y as int,
        ))
        &&& (self.viewsheds@[e] is Some ==> self.viewsheds@[e]->0.visible_tiles@.len()
            == self.map.tile_count() && 0 <= self.viewsheds@[e]->0.range <= 1024)
        &&& (self.stats@[e] is Some ==> 0 <= self.stats@[e]->0.hp <= self.stats@[e]->0.max_hp
            <= STAT_MAX && 0 <= self.stats@[e]->0.defense <= STAT_MAX && 0
            <= self.stats@[e]->0.power <= STAT_MAX)
        &&& (self.melee_targets@[e] is Some ==> 0 <= self.melee_targets@[e]->0 < self.n())
        &&& damage_list_ok(self.pending_damage@[e]@)
        &&& (self.healing@[e] is Some ==> 0 <= self.healing@[e]->0 <= STAT_MAX)
        &&& (self.inflicts@[e] is Some ==> 0 <= self.inflicts@[e]->0 <= STAT_MAX)
        &&& (self.aoe@[e] is Some ==> 0 <= self.aoe@[e]->0 <= 1024)
        &&& (self.confusion@[e] is Some ==> 0 <= self.confusion@[e]->0 <= STAT_MAX)
        &&& (self.backpack@[e] is Some ==> 0 <= self.backpack@[e]->0 < self.n())
        &&& (self.items@[e] && self.alive@[e] ==> ((self.positions@[e] is Some) != (
        self.backpack@[e] is Some)))
    }

    pub open spec fn queues_ok(self) -> bool {
        &&& forall|k: int|
            0 <= k < self.pickup_queue@.len() ==> (#[trigger] self.pickup_queue@[k]).item < self.n()
                && self.pickup_queue@[k].collector < self.n()
        &&& forall|k: int|
            0 <= k < self.drop_queue@.len() ==> (#[trigger] self.drop_queue@[k]).item < self.n()
                && self.drop_queue@[k].dropper < self.n()
        &&& forall|k: int|
            0 <= k < self.use_queue@.len() ==> (#[trigger] self.use_queue@[k]).item < self.n()
                && self.use_queue@[k].user < self.n() && (self.use_queue@[k].target is Some
                ==> self.map.in_bounds(
                self.use_queue@[k].target->0.x as int,
                self.use_queue@[k].target->0.y as int,
            ))
        &&& id_list_ok(self.pending_deletes@, self.n())
    }

    pub open spec fn content_ok(self) -> bool {
        forall|t: int|
            0 <= t < self.map.tile_content@.len() ==> id_list_ok(
                (#[trigger] self.map.tile_content@[t])@,
                self.n(),
            )
    }

    pub open spec fn wf(self) -> bool {
        &&& self.map.wf()
        &&& self.stores_sized()
        &&& 0 <= self.player < self.n()
        &&& self.alive@[self.player as int]
        &&& !self.monsters@[self.player as int]
        &&& forall|e: int| 0 <= e < self.n() ==> #[trigger] self.entity_ok(e)
        &&& self.queues_ok()
        &&& self.content_ok()
    }

    /// Build a world on a generated map, with the player as entity 0 at the
    /// given tile.
    pub fn new(map: GameMap, px: i32, py: i32, range: i32, hp: i32, defense: i32, power: i32) -> (w:
        World)
        requires
            map.wf(),
            map.in_bounds(px as int, py as int),
            forall|i: int| 0 <= i < map.tile_count() ==> id_list_ok((#[trigger] map.tile_content@[i])@, 0),
            0 <= range <= 1024,
            0 < hp <= STAT_MAX,
            0 <= defense <= STAT_MAX,
            0 <= power <= STAT_MAX,
        ensures
            w.wf(),
            w.map == map,
            w.player == 0,
            w.n() == 1,
            w.alive@[0],
            w.positions@[0] == Some(Position { x: px, y: py }),
            w.stats@[0] == Some(CombatStats { hp, max_hp: hp, defense, power }),
            w.viewsheds@[0] is Some && w.viewsheds@[0]->0.range == range && w.viewsheds@[0]->0.dirty,
            w.pending_damage@[0]@.len() == 0,
            w.pickup_queue@.len() == 0 && w.drop_queue@.len() == 0 && w.use_queue@.len() == 0,
            w.pending_deletes@.len() == 0,
    {
        let mut vis: Vec<bool> = Vec::new();
        let count = map.tiles.len();
        let mut i: usize = 0;
        while i < count
            invariant
                vis@.len() == i,
                i <= count,
            decreases count - i,
        {
            vis.push(false);
            i = i + 1;
        }
        World {
            map,
            player: 0,
            alive: vec![true],
            positions: vec![Some(Position { x: px, y: py })],
            viewsheds: vec![Some(Viewshed { visible_tiles: vis, range, dirty: true })],
            monsters: vec![false],
            blockers: vec![false],
            stats: vec![Some(CombatStats { hp, max_hp: hp, defense, power })],
            melee_targets: vec![None],
            pending_damage: vec![Vec::new()],
            items: vec![false],
            consumables: vec![false],
            healing: vec![None],
            inflicts: vec![None],
            aoe: vec![None],
            confusion: vec![None],
            backpack: vec![None],
            pickup_queue: Vec::new(),
            drop_queue: Vec::new(),
            use_queue: Vec::new(),
            pending_deletes: Vec::new(),
        }
    }
    /// Append a monster entity: position, viewshed, blocking, combat stats.
    pub fn spawn_monster(&mut self, x: i32, y: i32, range: i32, hp: i32, defense: i32, power: i32)
        -> (e: usize)
        requires
            old(self).wf(),
            old(self).map.in_bounds(x as int, y as int),
            0 <= range <= 1024,
            0 < hp <= STAT_MAX,
            0 <= defense <= STAT_MAX,
            0 <= power <= STAT_MAX,
        ensures
            final(self).wf(),
            e == old(self).n(),
            final(self).n() == old(self).n() + 1,
            final(self).map == old(self).map,
            final(self).player == old(self).player,
            final(self).alive@ == old(self).alive@.push(true),
            final(self).positions@ == old(self).positions@.push(Some(Position { x, y })),
            final(self).monsters@ == old(self).monsters@.push(true),
            final(self).blockers@ == old(self).blockers@.push(true),
            final(self).stats@ == old(self).stats@.push(
                Some(CombatStats { hp, max_hp: hp, defense, power }),
            ),
            final(self).melee_targets@ == old(self).melee_targets@.push(None),
            final(self).items@ == old(self).items@.push(false),
            final(self).consumables@ == old(self).consumables@.push(false),
            final(self).healing@ == old(self).healing@.push(None),
            final(self).inflicts@ == old(self).inflicts@.push(None),
            final(self).aoe@ == old(self).aoe@.push(None),
            final(self).confusion@ == old(self).confusion@.push(None),
            final(self).backpack@ == old(self).backpack@.push(None),
            final(self).viewsheds@.len() == old(self).n() + 1,
            forall|i: int|
                0 <= i < old(self).n() ==> final(self).viewsheds@[i] == old(self).viewsheds@[i],
            final(self).viewsheds@[e as int] is Some,
            final(self).viewsheds@[e as int]->0.range == range,
            final(self).viewsheds@[e as int]->0.dirty,
            final(self).pending_damage@.len() == old(self).n() + 1,
            forall|i: int|
                0 <= i < old(self).n() ==> final(self).pending_damage@[i]
                    == old(self).pending_damage@[i],
            final(self).pending_damage@[e as int]@.len() == 0,
            final(self).pickup_queue == old(self).pickup_queue,
            final(self).drop_queue == old(self).drop_queue,
            final(self).use_queue == old(self).use_queue,
            final(self).pending_deletes == old(self).pending_deletes,
    {
        let e = self.alive.len();
        let mut vis: Vec<bool> = Vec::new();
        let count = self.map.tiles.len();
        let mut i: usize = 0;
        while i < count
            invariant
                vis@.len() == i,
                i <= count,
            decreases count - i,
        {
            vis.push(false);
            i = i + 1;
        }
        self.alive.push(true);
        self.positions.push(Some(Position { x, y }));
        self.viewsheds.push(Some(Viewshed { visible_tiles: vis, range, dirty: true }));
        self.monsters.push(true);
        self.blockers.push(true);
        self.stats.push(Some(CombatStats { hp, max_hp: hp, defense, power }));
        self.melee_targets.push(None);
        self.pending_damage.push(Vec::new());
        self.items.push(false);
        self.consumables.push(false);
        self.healing.push(None);
        self.inflicts.push(None);
        self.aoe.push(None);
        self.confusion.push(None);
        self.backpack.push(None);
        proof {
            assert forall|ee: int| 0 <= ee < self.n() implies #[trigger] self.entity_ok(ee) by {
                if ee < old(self).n() {
                    assert(old(self).entity_ok(ee));
                }
            }
        }
        e
    }

    /// Append an item entity lying on the map at (x, y).
    pub fn spawn_item_at(
        &mut self,
        x: i32,
        y: i32,
        consumable: bool,
        healing: Option<i32>,
        inflicts: Option<i32>,
        aoe: Option<i32>,
        confusion: Option<i32>,
    ) -> (e: usize)
        requires
            old(self).wf(),
            old(self).map.in_bounds(x as int, y as int),
            healing is Some ==> 0 <= healing->0 <= STAT_MAX,
            inflicts is Some ==> 0 <= inflicts->0 <= STAT_MAX,
            aoe is Some ==> 0 <= aoe->0 <= 1024,
            confusion is Some ==> 0 <= confusion->0 <= STAT_MAX,
        ensures
            final(self).wf(),
            e == old(self).n(),
            final(self).n() == old(self).n() + 1,
            final(self).map == old(self).map,
            final(self).player == old(self).player,
            final(self).alive@ == old(self).alive@.push(true),
            final(self).positions@ == old(self).positions@.push(Some(Position { x, y })),
            final(self).viewsheds@ == old(self).viewsheds@.push(None),
            final(self).monsters@ == old(self).monsters@.push(false),
            final(self).blockers@ == old(self).blockers@.push(false),
            final(self).stats@ == old(self).stats@.push(None),
            final(self).melee_targets@ == old(self).melee_targets@.push(None),
            final(self).items@ == old(self).items@.push(true),
            final(self).consumables@ == old(self).consumables@.push(consumable),
            final(self).healing@ == old(self).healing@.push(healing),
            final(self).inflicts@ == old(self).inflicts@.push(inflicts),
            final(self).aoe@ == old(self).aoe@.push(aoe),
            final(self).confusion@ == old(self).confusion@.push(confusion),
            final(self).backpack@ == old(self).backpack@.push(None),
            final(self).pending_damage@.len() == old(self).n() + 1,
            forall|i: int|
                0 <= i < old(self).n() ==> final(self).pending_damage@[i]
                    == old(self).pending_damage@[i],
            final(self).pending_damage@[e as int]@.len() == 0,
            final(self).pickup_queue == old(self).pickup_queue,
            final(self).drop_queue == old(self).drop_queue,
            final(self).use_queue == old(self).use_queue,
            final(self).pending_deletes == old(self).pending_deletes,
    {
        let e = self.alive.len();
        self.alive.push(true);
        self.positions.push(Some(Position { x, y }));
        self.viewsheds.push(None);
        self.monsters.push(false);
        self.blockers.push(false);
        self.stats.push(None);
        self.melee_targets.push(None);
        self.pending_damage.push(Vec::new());
        self.items.push(true);
        self.consumables.push(consumable);
        self.healing.push(healing);
        self.inflicts.push(inflicts);
        self.aoe.push(aoe);
        self.confusion.push(confusion);
        self.backpack.push(None);
        proof {
            assert forall|ee: int| 0 <= ee < self.n() implies #[trigger] self.entity_ok(ee) by {
                if ee < old(self).n() {
                    assert(old(self).entity_ok(ee));
                }
            }
        }
        e
    }

    /// Append an item entity already carried by `owner`.
    pub fn spawn_item_carried(
        &mut self,
        owner: usize,
        consumable: bool,
        healing: Option<i32>,
        inflicts: Option<i32>,
        aoe: Option<i32>,
        confusion: Option<i32>,
    ) -> (e: usize)
        requires
            old(self).wf(),
            owner < old(self).n(),
            healing is Some ==> 0 <= healing->0 <= STAT_MAX,
            inflicts is Some ==> 0 <= inflicts->0 <= STAT_MAX,
            aoe is Some ==> 0 <= aoe->0 <= 1024,
            confusion is Some ==> 0 <= confusion->0 <= STAT_MAX,
        ensures
            final(self).wf(),
            e == old(self).n(),
            final(self).n() == old(self).n() + 1,
            final(self).map == old(self).map,
            final(self).player == old(self).player,
            final(self).alive@ == old(self).alive@.push(true),
            final(self).positions@ == old(self).positions@.push(None),
            final(self).viewsheds@ == old(self).viewsheds@.push(None),
            final(self).monsters@ == old(self).monsters@.push(false),
            final(self).blockers@ == old(self).blockers@.push(false),
            final(self).stats@ == old(self).stats@.push(None),
            final(self).melee_targets@ == old(self).melee_targets@.push(None),
            final(self).items@ == old(self).items@.push(true),
            final(self).consumables@ == old(self).consumables@.push(consumable),
            final(self).healing@ == old(self).healing@.push(healing),
            final(self).inflicts@ == old(self).inflicts@.push(inflicts),
            final(self).aoe@ == old(self).aoe@.push(aoe),
            final(self).confusion@ == old(self).confusion@.push(confusion),
            final(self).backpack@ == old(self).backpack@.push(Some(owner)),
            final(self).pending_damage@.len() == old(self).n() + 1,
            forall|i: int|
                0 <= i < old(self).n() ==> final(self).pending_damage@[i]
                    == old(self).pending_damage@[i],
            final(self).pending_damage@[e as int]@.len() == 0,
            final(self).pickup_queue == old(self).pickup_queue,
            final(self).drop_queue == old(self).drop_queue,
            final(self).use_queue == old(self).use_queue,
            final(self).pending_deletes == old(self).pending_deletes,
    {
        let e = self.alive.len();
        self.alive.push(true);
        self.positions.push(None);
        self.viewsheds.push(None);
        self.monsters.push(false);
        self.blockers.push(false);
        self.stats.push(None);
        self.melee_targets.push(None);
        self.pending_damage.push(Vec::new());
        self.items.push(true);
        self.consumables.push(consumable);
        self.healing.push(healing);
        self.inflicts.push(inflicts);
        self.aoe.push(aoe);
        self.confusion.push(confusion);
        self.backpack.push(Some(owner));
        proof {
            assert forall|ee: int| 0 <= ee < self.n() implies #[trigger] self.entity_ok(ee) by {
                if ee < old(self).n() {
                    assert(old(self).entity_ok(ee));
                }
            }
        }
        e
    }

    /// The shell asks `collector` to pick `item` up this turn.
    pub fn queue_pickup(&mut self, item: usize, collector: usize)
        requires
            old(self).wf(),
            item < old(self).n(),
            collector < old(self).n(),
        ensures
            final(self).wf(),
            final(self).pickup_queue@ == old(self).pickup_queue@.push(
                PickupRequest { item, collector },
            ),
            *final(self) == (World { pickup_queue: final(self).pickup_queue, ..*old(self) }),
    {
        self.pickup_queue.push(PickupRequest { item, collector });
        proof {
            assert forall|ee: int| 0 <= ee < self.n() implies #[trigger] self.entity_ok(ee) by {
                assert(old(self).entity_ok(ee));
            }
        }
    }

    /// The shell asks `dropper` to drop `item` this turn.
    pub fn queue_drop(&mut self, dropper: usize, item: usize)
        requires
            old(self).wf(),
            item < old(self).n(),
            dropper < old(self).n(),
        ensures
            final(self).wf(),
            final(self).drop_queue@ == old(self).drop_queue@.push(DropRequest { dropper, item }),
            *final(self) == (World { drop_queue: final(self).drop_queue, ..*old(self) }),
    {
        self.drop_queue.push(DropRequest { dropper, item });
        proof {
            assert forall|ee: int| 0 <= ee < self.n() implies #[trigger] self.entity_ok(ee) by {
                assert(old(self).entity_ok(ee));
            }
        }
    }

    /// The shell asks `user` to use `item` this turn, optionally at a tile.
    pub fn queue_use(&mut self, user: usize, item: usize, target: Option<Position>)
        requires
            old(self).wf(),
            item < old(self).n(),
            user < old(self).n(),
            target is Some ==> old(self).map.in_bounds(target->0.x as int, target->0.y as int),
        ensures
            final(self).wf(),
            final(self).use_queue@ == old(self).use_queue@.push(UseRequest { user, item, target }),
            *final(self) == (World { use_queue: final(self).use_queue, ..*old(self) }),
    {
        self.use_queue.push(UseRequest { user, item, target });
        proof {
            assert forall|ee: int| 0 <= ee < self.n() implies #[trigger] self.entity_ok(ee) by {
                assert(old(self).entity_ok(ee));
            }
        }
    }

    /// The shell asks `attacker` to attack `target` in melee this turn.
    pub fn queue_melee(&mut self, attacker: usize, target: usize)
        requires
            old(self).wf(),
            attacker < old(self).n(),
            target < old(self).n(),
        ensures
            final(self).wf(),
            final(self).melee_targets@ == old(self).melee_targets@.update(
                attacker as int,
                Some(target),
            ),
            *final(self) == (World { melee_targets: final(self).melee_targets, ..*old(self) }),
    {
        self.melee_targets[attacker] = Some(target);
        proof {
            assert forall|ee: int| 0 <= ee < self.n() implies #[trigger] self.entity_ok(ee) by {
                assert(old(self).entity_ok(ee));
            }
        }
    }

    /// Every component of entity `e` reads the same in `post` as in `self`.
    pub open spec fn slot_unchanged(self, post: World, e: int) -> bool {
        &&& post.alive@[e] == self.alive@[e]
        &&& post.positions@[e] == self.positions@[e]
        &&& post.viewsheds@[e] == self.viewsheds@[e]
        &&& post.monsters@[e] == self.monsters@[e]
        &&& post.blockers@[e] == self.blockers@[e]
        &&& post.stats@[e] == self.stats@[e]
        &&& post.melee_targets@[e] == self.melee_targets@[e]
        &&& post.pending_damage@[e] == self.pending_damage@[e]
        &&& post.items@[e] == self.items@[e]
        &&& post.consumables@[e] == self.consumables@[e]
        &&& post.healing@[e] == self.healing@[e]
        &&& post.inflicts@[e] == self.inflicts@[e]
        &&& post.aoe@[e] == self.aoe@[e]
        &&& post.confusion@[e] == self.confusion@[e]
        &&& post.backpack@[e] == self.backpack@[e]
    }

    /// Entity `e` is dead and stripped of every component.
    pub open spec fn slot_cleared(self, e: int) -> bool {
        &&& !self.alive@[e]
        &&& self.positions@[e] is None
        &&& self.viewsheds@[e] is None
        &&& !self.monsters@[e]
        &&& !self.blockers@[e]
        &&& self.stats@[e] is None
        &&& self.melee_targets@[e] is None
        &&& self.pending_damage@[e]@.len() == 0
        &&& !self.items@[e]
        &&& !self.consumables@[e]
        &&& self.healing@[e] is None
        &&& self.inflicts@[e] is None
        &&& self.aoe@[e] is None
        &&& self.confusion@[e] is None
        &&& self.backpack@[e] is None
    }

    /// What the commit point does to entity `e` for a given schedule: a
    /// scheduled non-player entity is cleared, every other entity is left
    /// exactly as it was.
    pub open spec fn commit_status(self, post: World, deletes: Seq<usize>, e: int) -> bool {
        if (exists|j: int| 0 <= j < deletes.len() && (#[trigger] deletes[j]) as int == e) && e
            != self.player {
            post.slot_cleared(e)
        } else {
            self.slot_unchanged(post, e)
        }
    }

    /// The end-of-turn commit: apply every scheduled deletion at once.  The
    /// player is never deleted, whatever was scheduled.
    pub fn commit_removals(&mut self)
        requires
            old(self).wf(),
        ensures
            final(self).wf(),
            final(self).n() == old(self).n(),
            final(self).map == old(self).map,
            final(self).player == old(self).player,
            final(self).pickup_queue == old(self).pickup_queue,
            final(self).drop_queue == old(self).drop_queue,
            final(self).use_queue == old(self).use_queue,
            final(self).pending_deletes@.len() == 0,
            forall|e: int|
                0 <= e < old(self).n() ==> #[trigger] old(self).commit_status(
                    *final(self),
                    old(self).pending_deletes@,
                    e,
                ),
    {
        let mut k: usize = 0;
        let len = self.pending_deletes.len();
        while k < len
            invariant
                old(self).wf(),
                len == old(self).pending_deletes@.len(),
                k <= len,
                self.n() == old(self).n(),
                self.stores_sized(),
                self.map == old(self).map,
                self.player == old(self).player,
                self.pickup_queue == old(self).pickup_queue,
                self.drop_queue == old(self).drop_queue,
                self.use_queue == old(self).use_queue,
                self.pending_deletes == old(self).pending_deletes,
                forall|e: int|
                    0 <= e < old(self).n() ==> #[trigger] old(self).commit_status(
                        *self,
                        old(self).pending_deletes@.take(k as int),
                        e,
                    ),
            decreases len - k,
        {
            let ghost pre = *self;
            let id = self.pending_deletes[k];
            if id != self.player {
                self.alive[id] = false;
                self.positions[id] = None;
                self.viewsheds[id] = None;
                self.monsters[id] = false;
                self.blockers[id] = false;
                self.stats[id] = None;
                self.melee_targets[id] = None;
                self.pending_damage[id] = Vec::new();
                self.items[id] = false;
                self.consumables[id] = false;
                self.healing[id] = None;
                self.inflicts[id] = None;
                self.aoe[id] = None;
                self.confusion[id] = None;
                self.backpack[id] = None;
            }
            proof {
                let ghost ds = old(self).pending_deletes@;
                assert(ds[k as int] == id);
                assert(id < old(self).n());
                assert forall|e: int|
                    0 <= e < old(self).n() implies #[trigger] old(self).commit_status(
                    *self,
                    ds.take(k + 1 as int),
                    e,
                ) by {
                    assert(old(self).commit_status(pre, ds.take(k as int), e));
                    assert(ds.take(k + 1 as int).len() == k + 1);
                    assert(forall|j: int| 0 <= j < k + 1 ==> ds.take(k + 1 as int)[j] == ds[j]);
                    if e == id as int && e != old(self).player {
                        assert((ds.take(k + 1 as int)[k as int]) as int == e);
                        assert(self.slot_cleared(e));
                    } else {
                        if exists|j: int|
                            0 <= j < k + 1 && (#[trigger] ds.take(k + 1 as int)[j]) as int == e {
                            let j = choose|j: int|
                                0 <= j < k + 1 && (#[trigger] ds.take(k + 1 as int)[j]) as int
                                    == e;
                            if j < k {
                                assert((ds.take(k as int)[j]) as int == e);
                            }
                        }
                    }
                }
            }
            k = k + 1;
        }
        proof {
            assert(old(self).pending_deletes@.take(len as int) =~= old(self).pending_deletes@);
            assert forall|e: int|
                0 <= e < old(self).n() implies #[trigger] old(self).commit_status(
                *self,
                old(self).pending_deletes@,
                e,
            ) by {
                assert(old(self).commit_status(
                    *self,
                    old(self).pending_deletes@.take(len as int),
                    e,
                ));
            }
        }
        let ghost before_clear = *self;
        self.pending_deletes.clear();
        proof {
            assert forall|e: int|
                0 <= e < old(self).n() implies #[trigger] old(self).commit_status(
                *self,
                old(self).pending_deletes@,
                e,
            ) by {
                assert(old(self).commit_status(
                    before_clear,
                    old(self).pending_deletes@,
                    e,
                ));
            }
            assert forall|ee: int| 0 <= ee < self.n() implies #[trigger] self.entity_ok(ee) by {
                assert(old(self).commit_status(*self, old(self).pending_deletes@, ee));
                assert(old(self).entity_ok(ee));
            }
            assert(old(self).commit_status(
                *self,
                old(self).pending_deletes@,
                old(self).player as int,
            ));
        }
    }

    /// Try to move a live entity one step.  The move succeeds when the
    /// destination is inside the map, is not a wall and is not marked
    /// blocked; then the position is updated, the mover's viewshed (if any)
    /// is marked dirty, and the blocked bitset follows the mover.  A refused
    /// move changes nothing.
    pub fn try_move_entity(&mut self, e: usize, dx: i32, dy: i32) -> (moved: bool)
        requires
            old(self).wf(),
            e < old(self).n(),
            old(self).alive@[e as int],
            old(self).positions@[e as int] is Some,
            -1 <= dx <= 1,
            -1 <= dy <= 1,
        ensures
            final(self).wf(),
            moved == (old(self).map.in_bounds(
                old(self).positions@[e as int]->0.x + dx,
                old(self).positions@[e as int]->0.y + dy,
            ) && old(self).map.tile_at(
                old(self).positions@[e as int]->0.x + dx,
                old(self).positions@[e as int]->0.y + dy,
            ) != crate::map::TileType::Wall && !old(self).map.blocked@[old(self).map.spec_idx(
                old(self).positions@[e as int]->0.x + dx,
                old(self).positions@[e as int]->0.y + dy,
            )]),
            !moved ==> *final(self) == *old(self),
            moved ==> final(self).positions@ == old(self).positions@.update(
                e as int,
                Some(
                    Position {
                        x: (old(self).positions@[e as int]->0.x + dx) as i32,
                        y: (old(self).positions@[e as int]->0.y + dy) as i32,
                    },
                ),
            ),
            moved ==> final(self).map.blocked@ == old(self).map.blocked@.update(
                old(self).map.spec_idx(
                    old(self).positions@[e as int]->0.x as int,
                    old(self).positions@[e as int]->0.y as int,
                ),
                false,
            ).update(
                old(self).map.spec_idx(
                    old(self).positions@[e as int]->0.x + dx,
                    old(self).positions@[e as int]->0.y + dy,
                ),
                true,
            ),
            moved ==> final(self).map == (GameMap {
                blocked: final(self).map.blocked,
                ..old(self).map
            }),
            moved ==> (final(self).viewsheds@[e as int] is Some <==> old(self).viewsheds@[e as int]
                is Some),
            moved ==> (old(self).viewsheds@[e as int] is Some
                ==> final(self).viewsheds@[e as int]->0.range == old(
                self,
            ).viewsheds@[e as int]->0.range && final(self).viewsheds@[e as int]->0.visible_tiles
                == old(self).viewsheds@[e as int]->0.visible_tiles
                && final(self).viewsheds@[e as int]->0.dirty),
            moved ==> forall|i: int|
                0 <= i < old(self).n() && i != e ==> final(self).viewsheds@[i] == old(
                    self,
                ).viewsheds@[i],
            moved ==> final(self).viewsheds@.len() == old(self).n(),
            *final(self) == (World {
                map: final(self).map,
                positions: final(self).positions,
                viewsheds: final(self).viewsheds,
                ..*old(self)
            }),
    {
        proof {
            assert(old(self).entity_ok(e as int));
        }
        let p = self.positions[e].unwrap();
        let nx = p.x + dx;
        let ny = p.y + dy;
        if nx < 0 || nx >= self.map.width || ny < 0 || ny >= self.map.height {
            return false;
        }
        let nidx = self.map.xy_idx(nx, ny);
        let t = self.map.tiles[nidx];
        if t == crate::map::TileType::Wall || self.map.blocked[nidx] {
            return false;
        }
        let oidx = self.map.xy_idx(p.x, p.y);
        self.map.blocked[oidx] = false;
        self.map.blocked[nidx] = true;
        self.positions[e] = Some(Position { x: nx, y: ny });
        match &mut self.viewsheds[e] {
            Some(v) => {
                v.dirty = true;
            },
            None => {},
        }
        proof {
            assert forall|ee: int| 0 <= ee < self.n() implies #[trigger] self.entity_ok(ee) by {
                assert(old(self).entity_ok(ee));
            }
            assert(self.map.wf()) by {
                assert forall|x: int, y: int|
                    self.map.in_bounds(x, y) && !self.map.interior(x, y) implies #[trigger] self
                    .map.tile_at(x, y) == crate::map::TileType::Wall by {
                    assert(old(self).map.tile_at(x, y) == crate::map::TileType::Wall);
                }
            }
        }
        true
    }

}

/// The end-of-turn commit as a relation between the world before and
/// after: exactly the contract of [`World::commit_removals`].
pub open spec fn spec_commit_run(pre: World, post: World) -> bool {
    &&& post.wf()
    &&& post.n() == pre.n()
    &&& post.map == pre.map
    &&& post.player == pre.player
    &&& post.pickup_queue == pre.pickup_queue
    &&& post.drop_queue == pre.drop_queue
    &&& post.use_queue == pre.use_queue
    &&& post.pending_deletes@.len() == 0
    &&& forall|e: int|
        0 <= e < pre.n() ==> #[trigger] pre.commit_status(post, pre.pending_deletes@, e)
}

} // verus!
