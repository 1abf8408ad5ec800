//! Monster decision making.  Each turn a monster is either confused (it
//! loses the turn and its confusion counts down), or it acts on what it
//! currently sees: attack the player when adjacent, otherwise take one step
//! toward the player, refusing steps onto walls or blocked tiles.

use vstd::prelude::*;

use crate::map::GameMap;
use crate::world::Position;
use crate::world::World;

verus! {

pub struct MonsterAI {}

/// A monster that can take a turn at all: alive, marked as a monster, on
/// the map, with a viewshed.
pub open spec fn monster_ready(w: World, e: int) -> bool {
    &&& w.alive@[e]
    &&& w.monsters@[e]
    &&& w.positions@[e] is Some
    &&& w.viewsheds@[e] is Some
}

/// A confusion component with turns remaining costs the owner its action.
pub open spec fn confusion_blocks(c: Option<i32>) -> bool {
    c is Some && c->0 > 0
}

/// One turn of the confusion rule: the counter goes down by one and the
/// component disappears when it reaches zero.
pub open spec fn next_confusion(c: Option<i32>) -> Option<i32> {
    if c is Some && c->0 > 1 {
        Some((c->0 - 1) as i32)
    } else {
        Option::<i32>::None
    }
}

/// The state of a confusion component after `k` turns of the rule.
pub open spec fn confusion_after(c: Option<i32>, k: nat) -> Option<i32>
    decreases k,
{
    if k == 0 {
        c
    } else {
        next_confusion(confusion_after(c, (k - 1) as nat))
    }
}

/// A monster hit with `Confusion(turns)` loses its action for exactly
/// `turns` consecutive turns: on each of the first `turns` turns the
/// component is still present with a positive counter (so the turn is
/// lost), and from turn `turns` on the component is gone and behavior is
/// normal again.
pub proof fn lemma_confusion_duration(turns: i32, k: nat)
    requires
        1 <= turns,
    ensures
        k < turns ==> confusion_after(Some(turns), k) == Some((turns - k) as i32),
        k < turns ==> confusion_blocks(confusion_after(Some(turns), k)),
        k >= turns ==> confusion_after(Some(turns), k) is None,
    decreases k,
{
    if k > 0 {
        lemma_confusion_duration(turns, (k - 1) as nat);
    }
}

/// The player stands on a tile that entity `e`'s current viewshed marks
/// visible.
pub open spec fn sees_player(w: World, e: int) -> bool {
    &&& w.positions@[w.player as int] is Some
    &&& w.viewsheds@[e]->0.visible_tiles@[w.map.spec_idx(
        w.positions@[w.player as int]->0.x as int,
        w.positions@[w.player as int]->0.y as int,
    )]
}

/// Chebyshev adjacency: the player is at most one step away in each axis.
pub open spec fn player_adjacent(w: World, e: int) -> bool {
    crate::fov::abs_int(
        w.positions@[e]->0.x - w.positions@[w.player as int]->0.x,
    ) <= 1 && crate::fov::abs_int(
        w.positions@[e]->0.y - w.positions@[w.player as int]->0.y,
    ) <= 1
}

/// The single-step destination toward the player.
pub open spec fn step_toward(w: World, e: int) -> Position {
    Position {
        x: (w.positions@[e]->0.x + crate::fov::sgn_int(
            w.positions@[w.player as int]->0.x - w.positions@[e]->0.x,
        )) as i32,
        y: (w.positions@[e]->0.y + crate::fov::sgn_int(
            w.positions@[w.player as int]->0.y - w.positions@[e]->0.y,
        )) as i32,
    }
}

/// One monster's movement, threaded over the evolving position store and
/// blocked bitset: a deciding monster steps toward the player unless the
/// destination leaves the map, is a wall, or is currently blocked; the
/// blocked bitset follows the mover.  Everything a monster's decision
/// reads except the blocked bitset — its own position, viewshed and
/// confusion, and the player's position — is untouched until its own
/// turn, so it is read from the pre-stage world.
pub open spec fn ai_move_step(
    w: World,
    positions: Seq<Option<Position>>,
    blocked: Seq<bool>,
    e: int,
) -> (Seq<Option<Position>>, Seq<bool>) {
    if decides_move(w, e) {
        let d = step_toward(w, e);
        let didx = w.map.spec_idx(d.x as int, d.y as int);
        if w.map.in_bounds(d.x as int, d.y as int) && w.map.tile_at(d.x as int, d.y as int)
            != crate::map::TileType::Wall && !blocked[didx] {
            (
                positions.update(e, Some(d)),
                blocked.update(
                    w.map.spec_idx(
                        w.positions@[e]->0.x as int,
                        w.positions@[e]->0.y as int,
                    ),
                    false,
                ).update(didx, true),
            )
        } else {
            (positions, blocked)
        }
    } else {
        (positions, blocked)
    }
}

/// Positions and blocked bitset after monsters `0..e` moved, in id order.
pub open spec fn ai_move_fold(w: World, e: int) -> (Seq<Option<Position>>, Seq<bool>)
    decreases e,
{
    if e <= 0 {
        (w.positions@, w.map.blocked@)
    } else {
        let p = ai_move_fold(w, e - 1);
        ai_move_step(w, p.0, p.1, e - 1)
    }
}

/// Monster `e` emits a melee intent this turn.
pub open spec fn decides_attack(w: World, e: int) -> bool {
    &&& monster_ready(w, e)
    &&& !confusion_blocks(w.confusion@[e])
    &&& sees_player(w, e)
    &&& player_adjacent(w, e)
}

/// Monster `e` tries to advance this turn.
pub open spec fn decides_move(w: World, e: int) -> bool {
    &&& monster_ready(w, e)
    &&& !confusion_blocks(w.confusion@[e])
    &&& sees_player(w, e)
    &&& !player_adjacent(w, e)
}

/// The viewshed of `e` is identical to before but freshly marked dirty:
/// what happens to a monster's viewshed exactly when it actually moved.
pub open spec fn viewshed_dirtied(pre: World, post: World, e: int) -> bool {
    &&& pre.viewsheds@[e] is Some
    &&& post.viewsheds@[e] is Some
    &&& post.viewsheds@[e]->0.range == pre.viewsheds@[e]->0.range
    &&& post.viewsheds@[e]->0.visible_tiles == pre.viewsheds@[e]->0.visible_tiles
    &&& post.viewsheds@[e]->0.dirty
}

/// The single step toward the player is ruled out by the terrain alone:
/// it leaves the map or lands on a wall.  Such a step is always refused,
/// whatever other monsters did first.
pub open spec fn step_hits_terrain(w: World, e: int) -> bool {
    let d = step_toward(w, e);
    !(w.map.in_bounds(d.x as int, d.y as int) && w.map.tile_at(d.x as int, d.y as int)
        != crate::map::TileType::Wall)
}


/// The monster-decision stage as a relation between the world before and
/// after: exactly the contract of [`MonsterAI::run`].
pub open spec fn spec_run(pre: World, post: World) -> bool {
    &&& post.wf()
    &&& forall|e: int|
        0 <= e < pre.n() ==> #[trigger] post.confusion@[e] == (if monster_ready(pre, e) {
            next_confusion(pre.confusion@[e])
        } else {
            pre.confusion@[e]
        })
    &&& forall|e: int|
        0 <= e < pre.n() ==> #[trigger] post.melee_targets@[e] == (if decides_attack(pre, e) {
            Some(pre.player)
        } else {
            pre.melee_targets@[e]
        })
    &&& forall|e: int|
        0 <= e < pre.n() && !decides_move(pre, e) ==> #[trigger] post.positions@[e]
            == pre.positions@[e]
    &&& forall|e: int|
        0 <= e < pre.n() && decides_move(pre, e) ==> {
            ||| #[trigger] post.positions@[e] == pre.positions@[e]
            ||| post.positions@[e] == Some(step_toward(pre, e))
        }
    &&& forall|e: int|
        0 <= e < pre.n() && decides_move(pre, e) && step_hits_terrain(pre, e)
            ==> #[trigger] post.positions@[e] == pre.positions@[e]
    &&& forall|e: int|
        0 <= e < pre.n() && !decides_move(pre, e) ==> #[trigger] post.viewsheds@[e]
            == pre.viewsheds@[e]
    &&& forall|e: int|
        0 <= e < pre.n() && decides_move(pre, e) && (#[trigger] post.positions@[e])
            == pre.positions@[e] ==> post.viewsheds@[e] == pre.viewsheds@[e]
    &&& forall|e: int|
        0 <= e < pre.n() && decides_move(pre, e) && (#[trigger] post.positions@[e])
            != pre.positions@[e] ==> viewshed_dirtied(pre, post, e)
    &&& post.positions@ == ai_move_fold(pre, pre.n()).0
    &&& post.map.blocked@ == ai_move_fold(pre, pre.n()).1
    &&& post.map == (GameMap { blocked: post.map.blocked, ..pre.map })
    &&& post == (World {
        map: post.map,
        positions: post.positions,
        viewsheds: post.viewsheds,
        melee_targets: post.melee_targets,
        confusion: post.confusion,
        ..pre
    })
}

impl MonsterAI {
    /// Run every monster's decision for this turn.  Confusion counters tick
    /// down exactly once for each monster that could act; an unconfused
    /// monster that sees the adjacent player queues a melee intent on it; an
    /// unconfused monster that sees a distant player either stays put or
    /// takes the single step toward the player (a step onto a wall or a
    /// blocked tile is refused); nothing else changes.
    #[verifier::rlimit(60)]
    pub fn run(w: &mut World)
        requires
            old(w).wf(),
        ensures
            final(w).wf(),
            forall|e: int|
                0 <= e < old(w).n() ==> #[trigger] final(w).confusion@[e] == (if monster_ready(
                    *old(w),
                    e,
                ) {
                    next_confusion(old(w).confusion@[e])
                } else {
                    old(w).confusion@[e]
                }),
            forall|e: int|
                0 <= e < old(w).n() ==> #[trigger] final(w).melee_targets@[e] == (if decides_attack(
                    *old(w),
                    e,
                ) {
                    Some(old(w).player)
                } else {
                    old(w).melee_targets@[e]
                }),
            forall|e: int|
                0 <= e < old(w).n() && !decides_move(*old(w), e)
                    ==> #[trigger] final(w).positions@[e] == old(w).positions@[e],
            forall|e: int|
                0 <= e < old(w).n() && decides_move(*old(w), e) ==> {
                    ||| #[trigger] final(w).positions@[e] == old(w).positions@[e]
                    ||| final(w).positions@[e] == Some(step_toward(*old(w), e))
                },
            forall|e: int|
                0 <= e < old(w).n() && decides_move(*old(w), e) && step_hits_terrain(*old(w), e)
                    ==> #[trigger] final(w).positions@[e] == old(w).positions@[e],
            forall|e: int|
                0 <= e < old(w).n() && !decides_move(*old(w), e)
                    ==> #[trigger] final(w).viewsheds@[e] == old(w).viewsheds@[e],
            forall|e: int|
                0 <= e < old(w).n() && decides_move(*old(w), e) && (#[trigger] final(w).positions@[e])
                    == old(w).positions@[e] ==> final(w).viewsheds@[e] == old(w).viewsheds@[e],
            forall|e: int|
                0 <= e < old(w).n() && decides_move(*old(w), e) && (#[trigger] final(w).positions@[e])
                    != old(w).positions@[e] ==> viewshed_dirtied(*old(w), *final(w), e),
            final(w).positions@ == ai_move_fold(*old(w), old(w).n()).0,
            final(w).map.blocked@ == ai_move_fold(*old(w), old(w).n()).1,
            final(w).map == (GameMap { blocked: final(w).map.blocked, ..old(w).map }),
            *final(w) == (World {
                map: final(w).map,
                positions: final(w).positions,
                viewsheds: final(w).viewsheds,
                melee_targets: final(w).melee_targets,
                confusion: final(w).confusion,
                ..*old(w)
            }),
    {
        let n = w.alive.len();
        let mut e: usize = 0;
        while e < n
            invariant
                old(w).wf(),
                n == old(w).n(),
                e <= n,
                w.wf(),
                w.n() == n,
                forall|i: int|
                    0 <= i < n ==> #[trigger] w.confusion@[i] == (if i < e && monster_ready(
                        *old(w),
                        i,
                    ) {
                        next_confusion(old(w).confusion@[i])
                    } else {
                        old(w).confusion@[i]
                    }),
                forall|i: int|
                    0 <= i < n ==> #[trigger] w.melee_targets@[i] == (if i < e && decides_attack(
                        *old(w),
                        i,
                    ) {
                        Some(old(w).player)
                    } else {
                        old(w).melee_targets@[i]
                    }),
                forall|i: int|
                    0 <= i < n && !(i < e && decides_move(*old(w), i))
                        ==> #[trigger] w.positions@[i] == old(w).positions@[i],
                forall|i: int|
                    0 <= i < n && i < e && decides_move(*old(w), i) ==> #[trigger] w.positions@[i]
                        == old(w).positions@[i] || w.positions@[i] == Some(
                        step_toward(*old(w), i),
                    ),
                forall|i: int|
                    0 <= i < n && i < e && decides_move(*old(w), i) && step_hits_terrain(
                        *old(w),
                        i,
                    ) ==> #[trigger] w.positions@[i] == old(w).positions@[i],
                forall|i: int|
                    0 <= i < n && !(i < e && decides_move(*old(w), i))
                        ==> #[trigger] w.viewsheds@[i] == old(w).viewsheds@[i],
                forall|i: int|
                    0 <= i < n && i < e && decides_move(*old(w), i) && #[trigger] w.positions@[i]
                        == old(w).positions@[i] ==> w.viewsheds@[i] == old(w).viewsheds@[i],
                forall|i: int|
                    0 <= i < n && i < e && decides_move(*old(w), i) && #[trigger] w.positions@[i]
                        != old(w).positions@[i] ==> viewshed_dirtied(*old(w), *w, i),
                w.positions@ == ai_move_fold(*old(w), e as int).0,
                w.map.blocked@ == ai_move_fold(*old(w), e as int).1,
                w.map == (GameMap { blocked: w.map.blocked, ..old(w).map }),
                *w == (World {
                    map: w.map,
                    positions: w.positions,
                    viewsheds: w.viewsheds,
                    melee_targets: w.melee_targets,
                    confusion: w.confusion,
                    ..*old(w)
                }),
            decreases n - e,
        {
            let ghost pre = *w;
            if w.alive[e] && w.monsters[e] {
                let has_pos = w.positions[e].is_some();
                let has_view = w.viewsheds[e].is_some();
                if has_pos && has_view {
                    proof {
                        assert(old(w).entity_ok(e as int));
                        assert(monster_ready(*old(w), e as int));
                    }
                    let mut can_act = true;
                    match w.confusion[e] {
                        Some(t) => {
                            if t > 0 {
                                can_act = false;
                            }
                            if t > 1 {
                                w.confusion[e] = Some(t - 1);
                            } else {
                                w.confusion[e] = None;
                            }
                        },
                        None => {},
                    }
                    proof {
                        assert forall|ii: int| 0 <= ii < w.n() implies #[trigger] w.entity_ok(ii) by {
                            assert(pre.entity_ok(ii));
                        }
                        assert(w.wf());
                    }
                    if can_act {
                        match w.positions[w.player] {
                            Some(pp) => {
                                proof {
                                    assert(w.entity_ok(old(w).player as int));
                                    assert(w.entity_ok(e as int));
                                }
                                let pidx = w.map.xy_idx(pp.x, pp.y);
                                let sees = match (&w.viewsheds[e]) {
                                    Some(v) => v.visible_tiles[pidx],
                                    None => false,
                                };
                                if sees {
                                    let mp = w.positions[e].unwrap();
                                    let adx = if pp.x >= mp.x {
                                        pp.x - mp.x
                                    } else {
                                        mp.x - pp.x
                                    };
                                    let ady = if pp.y >= mp.y {
                                        pp.y - mp.y
                                    } else {
                                        mp.y - pp.y
                                    };
                                    if adx <= 1 && ady <= 1 {
                                        proof {
                                            assert(decides_attack(*old(w), e as int));
                                        }
                                        let p = w.player;
                                        let ghost mid = *w;
                                        w.melee_targets[e] = Some(p);
                                        proof {
                                            assert forall|ii: int|
                                                0 <= ii < w.n() implies #[trigger] w.entity_ok(
                                                ii,
                                            ) by {
                                                assert(mid.entity_ok(ii));
                                            }
                                        }
                                    } else {
                                        proof {
                                            assert(decides_move(*old(w), e as int));
                                        }
                                        let dx: i32 = if pp.x > mp.x {
                                            1
                                        } else if pp.x < mp.x {
                                            -1
                                        } else {
                                            0
                                        };
                                        let dy: i32 = if pp.y > mp.y {
                                            1
                                        } else if pp.y < mp.y {
                                            -1
                                        } else {
                                            0
                                        };
                                        let ghost mid2 = *w;
                                        let moved = w.try_move_entity(e, dx, dy);
                                        proof {
                                            let d = step_toward(*old(w), e as int);
                                            assert(mid2.map.tile_at(d.x as int, d.y as int)
                                                == old(w).map.tile_at(d.x as int, d.y as int));
                                            if moved {
                                                assert(w.positions@[e as int] == Some(d));
                                                assert(w.positions@[e as int] != old(
                                                    w,
                                                ).positions@[e as int]);
                                                assert(viewshed_dirtied(*old(w), *w, e as int));
                                                assert(!step_hits_terrain(*old(w), e as int));
                                                assert(w.positions@ =~= ai_move_fold(
                                                    *old(w),
                                                    e + 1 as int,
                                                ).0);
                                                assert(w.map.blocked@ =~= ai_move_fold(
                                                    *old(w),
                                                    e + 1 as int,
                                                ).1);
                                            } else {
                                                assert(*w == mid2);
                                                assert(w.positions@[e as int] == old(
                                                    w,
                                                ).positions@[e as int]);
                                                assert(w.viewsheds@[e as int] == old(
                                                    w,
                                                ).viewsheds@[e as int]);
                                                assert(w.positions@ == ai_move_fold(
                                                    *old(w),
                                                    e + 1 as int,
                                                ).0);
                                                assert(w.map.blocked@ == ai_move_fold(
                                                    *old(w),
                                                    e + 1 as int,
                                                ).1);
                                            }
                                        }
                                    }
                                }
                            },
                            None => {},
                        }
                    }
                }
            }
            proof {
                assert forall|i: int|
                    0 <= i < n implies #[trigger] w.confusion@[i] == (if i < e + 1
                    && monster_ready(*old(w), i) {
                    next_confusion(old(w).confusion@[i])
                } else {
                    old(w).confusion@[i]
                }) by {
                    assert(pre.confusion@[i] == (if i < e && monster_ready(*old(w), i) {
                        next_confusion(old(w).confusion@[i])
                    } else {
                        old(w).confusion@[i]
                    }));
                }
                assert forall|i: int|
                    0 <= i < n implies #[trigger] w.melee_targets@[i] == (if i < e + 1
                    && decides_attack(*old(w), i) {
                    Some(old(w).player)
                } else {
                    old(w).melee_targets@[i]
                }) by {
                    assert(pre.melee_targets@[i] == (if i < e && decides_attack(*old(w), i) {
                        Some(old(w).player)
                    } else {
                        old(w).melee_targets@[i]
                    }));
                }
                assert forall|i: int|
                    0 <= i < n && !(i < e + 1 && decides_move(*old(w), i)) implies #[trigger] w
                    .positions@[i] == old(w).positions@[i] by {
                    assert(pre.positions@[i] == old(w).positions@[i] || (i < e && decides_move(
                        *old(w),
                        i,
                    )));
                }
                assert forall|i: int|
                    0 <= i < n && i < e + 1 && decides_move(*old(w), i) && step_hits_terrain(
                    *old(w),
                    i,
                ) implies #[trigger] w.positions@[i] == old(w).positions@[i] by {
                    if i < e {
                        assert(pre.positions@[i] == old(w).positions@[i]);
                    }
                }
                assert forall|i: int|
                    0 <= i < n && !(i < e + 1 && decides_move(*old(w), i)) implies #[trigger] w
                    .viewsheds@[i] == old(w).viewsheds@[i] by {
                    assert(pre.viewsheds@[i] == old(w).viewsheds@[i]);
                }
                assert forall|i: int|
                    0 <= i < n && i < e + 1 && decides_move(*old(w), i) && #[trigger] w
                    .positions@[i] == old(w).positions@[i] implies w.viewsheds@[i] == old(
                    w,
                ).viewsheds@[i] by {
                    if i < e {
                        assert(pre.positions@[i] == old(w).positions@[i]);
                        assert(pre.viewsheds@[i] == old(w).viewsheds@[i]);
                    }
                }
                if !decides_move(*old(w), e as int) {
                    assert(w.positions@ == ai_move_fold(*old(w), e + 1 as int).0);
                    assert(w.map.blocked@ == ai_move_fold(*old(w), e + 1 as int).1);
                }
                assert forall|i: int|
                    0 <= i < n && i < e + 1 && decides_move(*old(w), i) && #[trigger] w
                    .positions@[i] != old(w).positions@[i] implies viewshed_dirtied(
                    *old(w),
                    *w,
                    i,
                ) by {
                    if i < e {
                        assert(pre.positions@[i] != old(w).positions@[i]);
                        assert(viewshed_dirtied(*old(w), pre, i));
                    }
                }
            }
            e = e + 1;
        }
    }
}

} // verus!
