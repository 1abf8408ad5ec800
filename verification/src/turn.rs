//! One full turn of the simulation: the stage pipeline in its fixed order.
//! Each stage reads the outputs of the stages before it within the same
//! turn; entity deletions are deferred and applied once at the commit
//! point at the end.

use vstd::prelude::*;

use crate::ai::MonsterAI;
use crate::combat::delete_the_dead;
use crate::combat::DamageSystem;
use crate::combat::MeleeCombatSystem;
use crate::inventory::ItemCollectionSystem;
use crate::inventory::ItemDropSystem;
use crate::items::ItemUseSystem;
use crate::spatial::MapIndexingSystem;
use crate::visibility::VisibilitySystem;
use crate::world::LogEvent;
use crate::world::World;

verus! {

/// One turn as the composition of its stages: there are intermediate
/// worlds and logs linked, in order, by the stage relations — visibility,
/// monster decisions, spatial rebuild, melee, damage, pickups, drops,
/// item use, the death sweep and the deletion commit.  Every stage's exact
/// contract is thereby part of the turn's contract.
pub open spec fn turn_stages(
    pre: World,
    w1: World,
    w2: World,
    w3: World,
    w4: World,
    w5: World,
    w6: World,
    w7: World,
    w8: World,
    w9: World,
    post: World,
    pre_log: Seq<LogEvent>,
    l1: Seq<LogEvent>,
    l2: Seq<LogEvent>,
    post_log: Seq<LogEvent>,
    player_dead: bool,
) -> bool {
    &&& crate::visibility::spec_run(pre, w1)
    &&& crate::ai::spec_run(w1, w2)
    &&& crate::spatial::spec_run(w2, w3)
    &&& crate::combat::spec_melee_run(w3, w4)
    &&& crate::combat::spec_damage_run(w4, w5)
    &&& crate::inventory::spec_pickup_run(w5, w6, pre_log, l1)
    &&& crate::inventory::spec_drop_run(w6, w7, l1, l2)
    &&& crate::items::spec_use_run(w7, w8, l2, post_log)
    &&& crate::combat::spec_dead_sweep(w8, w9, player_dead)
    &&& crate::world::spec_commit_run(w9, post)
}

pub open spec fn spec_turn(
    pre: World,
    post: World,
    pre_log: Seq<LogEvent>,
    post_log: Seq<LogEvent>,
    player_dead: bool,
) -> bool {
    exists|
        w1: World,
        w2: World,
        w3: World,
        w4: World,
        w5: World,
        w6: World,
        w7: World,
        w8: World,
        w9: World,
        l1: Seq<LogEvent>,
        l2: Seq<LogEvent>,
    |
        #[trigger] turn_stages(
            pre,
            w1,
            w2,
            w3,
            w4,
            w5,
            w6,
            w7,
            w8,
            w9,
            post,
            pre_log,
            l1,
            l2,
            post_log,
            player_dead,
        )
}

/// Run the ordered stage pipeline once.  The turn's effect is the
/// composition of the stage relations (`spec_turn`); in addition: every
/// intent queue is fully drained and the commit applied, the return value
/// signals — if and only if — that the player ends the turn at zero hit
/// points, a tile once revealed stays revealed, the visible set stays a
/// subset of the revealed set, and when the player's viewshed was dirty
/// the visible set ends exactly replaced by the player's field of view.
pub fn run_systems(w: &mut World, log: &mut Vec<LogEvent>) -> (player_dead: bool)
    requires
        old(w).wf(),
    ensures
        final(w).wf(),
        final(w).n() == old(w).n(),
        final(w).player == old(w).player,
        final(w).pickup_queue@.len() == 0,
        final(w).drop_queue@.len() == 0,
        final(w).use_queue@.len() == 0,
        final(w).pending_deletes@.len() == 0,
        forall|a: int| 0 <= a < old(w).n() ==> #[trigger] final(w).melee_targets@[a] is None,
        player_dead == (final(w).stats@[old(w).player as int] is Some
            && final(w).stats@[old(w).player as int]->0.hp == 0),
        forall|i: int|
            0 <= i < old(w).map.tile_count() && old(w).map.revealed_tiles@[i]
                ==> #[trigger] final(w).map.revealed_tiles@[i],
        forall|i: int|
            0 <= i < old(w).map.tile_count() && #[trigger] final(w).map.visible_tiles@[i]
                ==> final(w).map.revealed_tiles@[i],
        crate::visibility::needs_recompute(*old(w), old(w).player as int) ==> forall|i: int|
            0 <= i < old(w).map.tile_count() ==> #[trigger] final(w).map.visible_tiles@[i]
                == crate::visibility::entity_sees_idx(*old(w), old(w).player as int, i),
        crate::visibility::needs_recompute(*old(w), old(w).player as int) ==> forall|i: int|
            0 <= i < old(w).map.tile_count() ==> #[trigger] final(w).map.revealed_tiles@[i] == (
            old(w).map.revealed_tiles@[i] || crate::visibility::entity_sees_idx(
                *old(w),
                old(w).player as int,
                i,
            )),
        !crate::visibility::needs_recompute(*old(w), old(w).player as int)
            ==> final(w).map.revealed_tiles == old(w).map.revealed_tiles
                && final(w).map.visible_tiles == old(w).map.visible_tiles,
        final(log)@.len() >= old(log)@.len(),
        forall|i: int| 0 <= i < old(log)@.len() ==> #[trigger] final(log)@[i] == old(log)@[i],
        spec_turn(*old(w), *final(w), old(log)@, final(log)@, player_dead),
{
    VisibilitySystem::run(w);
    let ghost s1 = *w;
    MonsterAI::run(w);
    let ghost s2 = *w;
    MapIndexingSystem::run(w);
    let ghost s3 = *w;
    MeleeCombatSystem::run(w);
    let ghost s4 = *w;
    DamageSystem::run(w);
    let ghost s5 = *w;
    ItemCollectionSystem::run(w, log);
    let ghost s6 = *w;
    let ghost l1 = log@;
    ItemDropSystem::run(w, log);
    let ghost s7 = *w;
    let ghost l2 = log@;
    ItemUseSystem::run(w, log);
    let ghost s8 = *w;
    let player_dead = delete_the_dead(w);
    let ghost s9 = *w;
    w.commit_removals();
    proof {
        assert(crate::visibility::spec_run(*old(w), s1));
        assert(crate::ai::spec_run(s1, s2));
        assert(crate::spatial::spec_run(s2, s3));
        assert(crate::combat::spec_melee_run(s3, s4));
        assert(crate::combat::spec_damage_run(s4, s5));
        assert(crate::inventory::spec_pickup_run(s5, s6, old(log)@, l1));
        assert(crate::inventory::spec_drop_run(s6, s7, l1, l2));
        assert(crate::items::spec_use_run(s7, s8, l2, log@));
        assert(crate::combat::spec_dead_sweep(s8, s9, player_dead));
        assert(crate::world::spec_commit_run(s9, *w));
        assert(turn_stages(
            *old(w),
            s1,
            s2,
            s3,
            s4,
            s5,
            s6,
            s7,
            s8,
            s9,
            *w,
            old(log)@,
            l1,
            l2,
            log@,
            player_dead,
        ));
        assert(spec_turn(*old(w), *w, old(log)@, log@, player_dead));
        assert forall|a: int|
            0 <= a < old(w).n() implies #[trigger] w.melee_targets@[a] is None by {
            assert(s9.commit_status(*w, s9.pending_deletes@, a));
        }
        assert(s9.commit_status(*w, s9.pending_deletes@, old(w).player as int));
        assert(w.stats@[old(w).player as int] == s8.stats@[old(w).player as int]);
        assert(w.map.revealed_tiles == s1.map.revealed_tiles);
        assert(w.map.visible_tiles == s1.map.visible_tiles);
        assert forall|i: int|
            0 <= i < old(w).map.tile_count() && old(w).map.revealed_tiles@[i] implies #[trigger] w
            .map.revealed_tiles@[i] by {
            assert(s1.map.revealed_tiles@[i]);
        }
        if crate::visibility::needs_recompute(*old(w), old(w).player as int) {
            assert forall|i: int|
                0 <= i < old(w).map.tile_count() implies #[trigger] w.map.visible_tiles@[i]
                == crate::visibility::entity_sees_idx(*old(w), old(w).player as int, i) by {
                assert(s1.map.visible_tiles@[i] == crate::visibility::entity_sees_idx(
                    *old(w),
                    old(w).player as int,
                    i,
                ));
            }
            assert forall|i: int|
                0 <= i < old(w).map.tile_count() implies #[trigger] w.map.revealed_tiles@[i] == (
            old(w).map.revealed_tiles@[i] || crate::visibility::entity_sees_idx(
                *old(w),
                old(w).player as int,
                i,
            )) by {
                assert(s1.map.revealed_tiles@[i] == (old(w).map.revealed_tiles@[i]
                    || crate::visibility::entity_sees_idx(*old(w), old(w).player as int, i)));
            }
        }
    }
    player_dead
}

} // verus!
