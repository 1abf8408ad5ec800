//! The visibility engine: recompute the viewshed of every entity whose
//! viewshed is dirty, and for the player fold the result into the map's
//! revealed history and replace the map's visible set.
//!
//! A clean viewshed is left alone, so every consumer in the same turn sees
//! one consistent set.  `revealed` only ever grows; `visible` is replaced
//! wholesale and always stays a subset of `revealed`.

use vstd::prelude::*;

use crate::fov;
use crate::map::GameMap;
use crate::world::Viewshed;
use crate::world::World;

verus! {

pub struct VisibilitySystem {}

/// Entity `e` gets its viewshed recomputed this turn.
pub open spec fn needs_recompute(w: World, e: int) -> bool {
    &&& w.alive@[e]
    &&& w.positions@[e] is Some
    &&& w.viewsheds@[e] is Some
    &&& w.viewsheds@[e]->0.dirty
}

/// Whether tile index `i` is visible to entity `e` of `w` from its current
/// position, by the field-of-view rules.
pub open spec fn entity_sees_idx(w: World, e: int, i: int) -> bool {
    fov::visible_idx(
        w.map,
        w.positions@[e]->0.x as int,
        w.positions@[e]->0.y as int,
        w.viewsheds@[e]->0.range as int,
        i,
    )
}

/// The viewshed of `e` in `post` is the freshly computed one for `pre`.
pub open spec fn viewshed_computed(pre: World, post: World, e: int) -> bool {
    &&& post.viewsheds@[e] is Some
    &&& !post.viewsheds@[e]->0.dirty
    &&& post.viewsheds@[e]->0.range == pre.viewsheds@[e]->0.range
    &&& post.viewsheds@[e]->0.visible_tiles@.len() == pre.map.tile_count()
    &&& forall|i: int|
        0 <= i < pre.map.tile_count() ==> #[trigger] post.viewsheds@[e]->0.visible_tiles@[i]
            == entity_sees_idx(pre, e, i)
}

/// Two maps with the same tiles and dimensions agree on every visibility
/// question; the revealed/visible/blocked bitsets and the occupant index
/// play no part in sight.
pub proof fn lemma_visible_same_tiles(m1: GameMap, m2: GameMap, ox: int, oy: int, range: int, i: int)
    requires
        m1.tiles == m2.tiles,
        m1.width == m2.width,
        m1.height == m2.height,
    ensures
        fov::visible_idx(m1, ox, oy, range, i) == fov::visible_idx(m2, ox, oy, range, i),
{
    let x = i % (m1.width as int);
    let y = i / (m1.width as int);
    assert forall|a: int, b: int, c: int, d: int, j: int| #[trigger] fov::clear_at(m1, a, b, c, d, j)
        == fov::clear_at(m2, a, b, c, d, j) by {
        assert(fov::line_point(a, b, c, d, j) == fov::line_point(a, b, c, d, j));
    }
    assert(fov::line_clear(m1, ox, oy, x, y) == fov::line_clear(m2, ox, oy, x, y)) by {
        if fov::line_clear(m1, ox, oy, x, y) {
            assert forall|j: int| 1 <= j < fov::line_steps(ox, oy, x, y) implies #[trigger] fov::clear_at(
                m2,
                ox,
                oy,
                x,
                y,
                j,
            ) by {
                assert(fov::clear_at(m1, ox, oy, x, y, j));
            }
        }
        if fov::line_clear(m2, ox, oy, x, y) {
            assert forall|j: int| 1 <= j < fov::line_steps(ox, oy, x, y) implies #[trigger] fov::clear_at(
                m1,
                ox,
                oy,
                x,
                y,
                j,
            ) by {
                assert(fov::clear_at(m2, ox, oy, x, y, j));
            }
        }
    }
    assert(fov::line_clear(m1, x, y, ox, oy) == fov::line_clear(m2, x, y, ox, oy)) by {
        if fov::line_clear(m1, x, y, ox, oy) {
            assert forall|j: int| 1 <= j < fov::line_steps(x, y, ox, oy) implies #[trigger] fov::clear_at(
                m2,
                x,
                y,
                ox,
                oy,
                j,
            ) by {
                assert(fov::clear_at(m1, x, y, ox, oy, j));
            }
        }
        if fov::line_clear(m2, x, y, ox, oy) {
            assert forall|j: int| 1 <= j < fov::line_steps(x, y, ox, oy) implies #[trigger] fov::clear_at(
                m1,
                x,
                y,
                ox,
                oy,
                j,
            ) by {
                assert(fov::clear_at(m2, x, y, ox, oy, j));
            }
        }
    }
}


/// The visibility stage as a relation between the world before and after:
/// exactly the contract of [`VisibilitySystem::run`].
pub open spec fn spec_run(pre: World, post: World) -> bool {
    &&& post.wf()
    &&& forall|e: int|
        0 <= e < pre.n() ==> (if needs_recompute(pre, e) {
            viewshed_computed(pre, post, e)
        } else {
            post.viewsheds@[e] == pre.viewsheds@[e]
        })
    &&& forall|i: int|
        0 <= i < pre.map.tile_count() && pre.map.revealed_tiles@[i]
            ==> #[trigger] post.map.revealed_tiles@[i]
    &&& (needs_recompute(pre, pre.player as int) ==> forall|i: int|
        0 <= i < pre.map.tile_count() ==> #[trigger] post.map.revealed_tiles@[i] == (
        pre.map.revealed_tiles@[i] || entity_sees_idx(pre, pre.player as int, i)))
    &&& (needs_recompute(pre, pre.player as int) ==> forall|i: int|
        0 <= i < pre.map.tile_count() ==> #[trigger] post.map.visible_tiles@[i]
            == entity_sees_idx(pre, pre.player as int, i))
    &&& (!needs_recompute(pre, pre.player as int) ==> post.map.revealed_tiles
        == pre.map.revealed_tiles && post.map.visible_tiles == pre.map.visible_tiles)
    &&& post.map == (GameMap {
        revealed_tiles: post.map.revealed_tiles,
        visible_tiles: post.map.visible_tiles,
        ..pre.map
    })
    &&& post == (World { map: post.map, viewsheds: post.viewsheds, ..pre })
}

impl VisibilitySystem {
    /// Recompute every dirty viewshed; for the player additionally union
    /// the fresh set into the revealed bitset (which never shrinks) and
    /// replace the visible bitset with it.
    #[verifier::rlimit(60)]
    pub fn run(w: &mut World)
        requires
            old(w).wf(),
        ensures
            final(w).wf(),
            forall|e: int|
                0 <= e < old(w).n() ==> (if needs_recompute(*old(w), e) {
                    viewshed_computed(*old(w), *final(w), e)
                } else {
                    final(w).viewsheds@[e] == old(w).viewsheds@[e]
                }),
            forall|i: int|
                0 <= i < old(w).map.tile_count() && old(w).map.revealed_tiles@[i]
                    ==> #[trigger] final(w).map.revealed_tiles@[i],
            needs_recompute(*old(w), old(w).player as int) ==> forall|i: int|
                0 <= i < old(w).map.tile_count() ==> #[trigger] final(w).map.revealed_tiles@[i]
                    == (old(w).map.revealed_tiles@[i] || entity_sees_idx(
                    *old(w),
                    old(w).player as int,
                    i,
                )),
            needs_recompute(*old(w), old(w).player as int) ==> forall|i: int|
                0 <= i < old(w).map.tile_count() ==> #[trigger] final(w).map.visible_tiles@[i]
                    == entity_sees_idx(*old(w), old(w).player as int, i),
            !needs_recompute(*old(w), old(w).player as int) ==> final(w).map.revealed_tiles
                == old(w).map.revealed_tiles && final(w).map.visible_tiles
                == old(w).map.visible_tiles,
            final(w).map == (GameMap {
                revealed_tiles: final(w).map.revealed_tiles,
                visible_tiles: final(w).map.visible_tiles,
                ..old(w).map
            }),
            *final(w) == (World { map: final(w).map, viewsheds: final(w).viewsheds, ..*old(w) }),
    {
        let n = w.alive.len();
        let count = w.map.tiles.len();
        let p = w.player;
        let player_needs = w.alive[p] && match (&w.positions[p], &w.viewsheds[p]) {
            (Some(_), Some(v)) => v.dirty,
            _ => false,
        };
        proof {
            assert(player_needs == needs_recompute(*old(w), old(w).player as int));
        }
        let mut e: usize = 0;
        while e < n
            invariant
                old(w).wf(),
                n == old(w).n(),
                count == old(w).map.tile_count(),
                e <= n,
                w.viewsheds@.len() == n,
                forall|ee: int|
                    0 <= ee < e ==> (if needs_recompute(*old(w), ee) {
                        viewshed_computed(*old(w), *w, ee)
                    } else {
                        w.viewsheds@[ee] == old(w).viewsheds@[ee]
                    }),
                forall|ee: int| e <= ee < n ==> #[trigger] w.viewsheds@[ee] == old(w).viewsheds@[ee],
                *w == (World { viewsheds: w.viewsheds, ..*old(w) }),
            decreases n - e,
        {
            let ghost pre = *w;
            let mut recompute = false;
            let mut px: i32 = 0;
            let mut py: i32 = 0;
            let mut range: i32 = 0;
            if w.alive[e] {
                match (&w.positions[e], &w.viewsheds[e]) {
                    (Some(pos), Some(v)) => {
                        if v.dirty {
                            recompute = true;
                            px = pos.x;
                            py = pos.y;
                            range = v.range;
                        }
                    },
                    _ => {},
                }
            }
            if recompute {
                proof {
                    assert(old(w).entity_ok(e as int));
                }
                let vis = fov::field_of_view(&w.map, px, py, range);
                w.viewsheds[e] = Some(Viewshed { visible_tiles: vis, range, dirty: false });
                proof {
                    assert(viewshed_computed(*old(w), *w, e as int));
                }
            }
            proof {
                assert forall|ee: int|
                    0 <= ee < e + 1 implies (if needs_recompute(*old(w), ee) {
                    viewshed_computed(*old(w), *w, ee)
                } else {
                    w.viewsheds@[ee] == old(w).viewsheds@[ee]
                }) by {
                    if ee < e && needs_recompute(*old(w), ee) {
                        assert(viewshed_computed(*old(w), pre, ee));
                    }
                }
            }
            e = e + 1;
        }
        let ghost mid = *w;
        if player_needs {
            proof {
                assert(viewshed_computed(*old(w), *w, old(w).player as int));
            }
            let mut i: usize = 0;
            while i < count
                invariant
                    old(w).wf(),
                    count == old(w).map.tile_count(),
                    i <= count,
                    p == old(w).player,
                    p < mid.viewsheds@.len(),
                    viewshed_computed(*old(w), mid, old(w).player as int),
                    w.map.revealed_tiles@.len() == count,
                    w.map.visible_tiles@.len() == count,
                    forall|j: int|
                        0 <= j < i ==> #[trigger] w.map.revealed_tiles@[j] == (old(
                            w,
                        ).map.revealed_tiles@[j] || entity_sees_idx(
                            *old(w),
                            old(w).player as int,
                            j,
                        )),
                    forall|j: int|
                        0 <= j < i ==> #[trigger] w.map.visible_tiles@[j] == entity_sees_idx(
                            *old(w),
                            old(w).player as int,
                            j,
                        ),
                    forall|j: int|
                        i <= j < count ==> #[trigger] w.map.revealed_tiles@[j] == old(
                            w,
                        ).map.revealed_tiles@[j],
                    forall|j: int|
                        i <= j < count ==> #[trigger] w.map.visible_tiles@[j] == old(
                            w,
                        ).map.visible_tiles@[j],
                    w.map == (GameMap {
                        revealed_tiles: w.map.revealed_tiles,
                        visible_tiles: w.map.visible_tiles,
                        ..mid.map
                    }),
                    *w == (World { map: w.map, ..mid }),
                decreases count - i,
            {
                let ghost pre2 = *w;
                let sees = match (&w.viewsheds[p]) {
                    Some(v) => v.visible_tiles[i],
                    None => false,
                };
                proof {
                    assert(sees == entity_sees_idx(*old(w), old(w).player as int, i as int));
                }
                if sees {
                    w.map.revealed_tiles[i] = true;
                }
                w.map.visible_tiles[i] = sees;
                proof {
                    assert forall|j: int|
                        0 <= j < i + 1 implies #[trigger] w.map.revealed_tiles@[j] == (old(
                        w,
                    ).map.revealed_tiles@[j] || entity_sees_idx(
                        *old(w),
                        old(w).player as int,
                        j,
                    )) by {
                        if j < i {
                            assert(pre2.map.revealed_tiles@[j] == (old(w).map.revealed_tiles@[j]
                                || entity_sees_idx(*old(w), old(w).player as int, j)));
                        }
                    }
                    assert forall|j: int|
                        0 <= j < i + 1 implies #[trigger] w.map.visible_tiles@[j]
                        == entity_sees_idx(*old(w), old(w).player as int, j) by {
                        if j < i {
                            assert(pre2.map.visible_tiles@[j] == entity_sees_idx(
                                *old(w),
                                old(w).player as int,
                                j,
                            ));
                        }
                    }
                    assert forall|j: int|
                        i + 1 <= j < count implies #[trigger] w.map.revealed_tiles@[j] == old(
                        w,
                    ).map.revealed_tiles@[j] by {
                        assert(pre2.map.revealed_tiles@[j] == old(w).map.revealed_tiles@[j]);
                    }
                    assert forall|j: int|
                        i + 1 <= j < count implies #[trigger] w.map.visible_tiles@[j] == old(
                        w,
                    ).map.visible_tiles@[j] by {
                        assert(pre2.map.visible_tiles@[j] == old(w).map.visible_tiles@[j]);
                    }
                }
                i = i + 1;
            }
        }
        proof {
            assert forall|ee: int| 0 <= ee < w.n() implies #[trigger] w.entity_ok(ee) by {
                assert(old(w).entity_ok(ee));
                if needs_recompute(*old(w), ee) {
                    assert(viewshed_computed(*old(w), *w, ee));
                }
            }
            assert forall|x: int, y: int|
                w.map.in_bounds(x, y) && !w.map.interior(x, y) implies #[trigger] w.map.tile_at(
                x,
                y,
            ) == crate::map::TileType::Wall by {
                assert(old(w).map.tile_at(x, y) == crate::map::TileType::Wall);
            }
        }
    }
}

} // verus!
