//! The spatial index: rebuilt once per turn from current positions, it
//! gives every tile its list of occupants (in entity id order) and marks a
//! tile blocked when it is a wall or carries a blocking entity.

use vstd::prelude::*;

use crate::map::GameMap;
use crate::map::TileType;
use crate::world::World;

verus! {

pub struct MapIndexingSystem {}

/// Entity `e` is alive and stands on tile `t`.
pub open spec fn occupies(w: World, e: int, t: int) -> bool {
    &&& w.alive@[e]
    &&& w.positions@[e] is Some
    &&& w.map.spec_idx(w.positions@[e]->0.x as int, w.positions@[e]->0.y as int) == t
}

/// Tile `t` is blocked considering walls and the blockers among entities
/// `0..e`.
pub open spec fn blocked_upto(w: World, t: int, e: int) -> bool
    decreases e,
{
    if e <= 0 {
        w.map.tiles@[t] == TileType::Wall
    } else {
        blocked_upto(w, t, e - 1) || (occupies(w, e - 1, t) && w.blockers@[e - 1])
    }
}

/// The occupants of tile `t` among entities `0..e`, in id order.
pub open spec fn content_list(w: World, t: int, e: int) -> Seq<usize>
    decreases e,
{
    if e <= 0 {
        Seq::empty()
    } else if occupies(w, e - 1, t) {
        content_list(w, t, e - 1).push((e - 1) as usize)
    } else {
        content_list(w, t, e - 1)
    }
}

proof fn lemma_content_list_ok(w: World, t: int, e: int)
    requires
        0 <= e <= w.n(),
    ensures
        crate::world::id_list_ok(content_list(w, t, e), w.n()),
    decreases e,
{
    if e > 0 {
        lemma_content_list_ok(w, t, e - 1);
    }
}


/// The spatial-index rebuild as a relation between the world before and
/// after: exactly the contract of [`MapIndexingSystem::run`].
pub open spec fn spec_run(pre: World, post: World) -> bool {
    &&& post.wf()
    &&& forall|i: int|
        0 <= i < pre.map.tile_count() ==> #[trigger] post.map.blocked@[i] == blocked_upto(
            pre,
            i,
            pre.n(),
        )
    &&& forall|i: int|
        0 <= i < pre.map.tile_count() ==> (#[trigger] post.map.tile_content@[i])@ == content_list(
            pre,
            i,
            pre.n(),
        )
    &&& post.map == (GameMap {
        blocked: post.map.blocked,
        tile_content: post.map.tile_content,
        ..pre.map
    })
    &&& post == (World { map: post.map, ..pre })
}

impl MapIndexingSystem {
    /// Rebuild the blocked bitset and the per-tile occupant lists from the
    /// current positions; nothing else changes.
    pub fn run(w: &mut World)
        requires
            old(w).wf(),
        ensures
            final(w).wf(),
            forall|i: int|
                0 <= i < old(w).map.tile_count() ==> #[trigger] final(w).map.blocked@[i]
                    == blocked_upto(*old(w), i, old(w).n()),
            forall|i: int|
                0 <= i < old(w).map.tile_count() ==> (#[trigger] final(w).map.tile_content@[i])@
                    == content_list(*old(w), i, old(w).n()),
            final(w).map == (GameMap {
                blocked: final(w).map.blocked,
                tile_content: final(w).map.tile_content,
                ..old(w).map
            }),
            *final(w) == (World { map: final(w).map, ..*old(w) }),
    {
        let count = w.map.tiles.len();
        let mut i: usize = 0;
        while i < count
            invariant
                old(w).wf(),
                count == old(w).map.tile_count(),
                i <= count,
                w.map.blocked@.len() == count,
                w.map.tile_content@.len() == count,
                forall|j: int|
                    0 <= j < i ==> #[trigger] w.map.blocked@[j] == blocked_upto(*old(w), j, 0),
                forall|j: int|
                    0 <= j < i ==> (#[trigger] w.map.tile_content@[j])@ == content_list(
                        *old(w),
                        j,
                        0,
                    ),
                w.map == (GameMap {
                    blocked: w.map.blocked,
                    tile_content: w.map.tile_content,
                    ..old(w).map
                }),
                *w == (World { map: w.map, ..*old(w) }),
            decreases count - i,
        {
            let t = w.map.tiles[i];
            w.map.blocked[i] = t == TileType::Wall;
            w.map.tile_content[i] = Vec::new();
            i = i + 1;
        }
        let n = w.alive.len();
        let mut e: usize = 0;
        while e < n
            invariant
                old(w).wf(),
                count == old(w).map.tile_count(),
                n == old(w).n(),
                e <= n,
                w.map.blocked@.len() == count,
                w.map.tile_content@.len() == count,
                forall|j: int|
                    0 <= j < count ==> #[trigger] w.map.blocked@[j] == blocked_upto(
                        *old(w),
                        j,
                        e as int,
                    ),
                forall|j: int|
                    0 <= j < count ==> (#[trigger] w.map.tile_content@[j])@ == content_list(
                        *old(w),
                        j,
                        e as int,
                    ),
                w.map == (GameMap {
                    blocked: w.map.blocked,
                    tile_content: w.map.tile_content,
                    ..old(w).map
                }),
                *w == (World { map: w.map, ..*old(w) }),
            decreases n - e,
        {
            let ghost pre = *w;
            if w.alive[e] {
                match w.positions[e] {
                    Some(p) => {
                        proof {
                            assert(old(w).entity_ok(e as int));
                        }
                        let ti = w.map.xy_idx(p.x, p.y);
                        if w.blockers[e] {
                            w.map.blocked[ti] = true;
                        }
                        w.map.tile_content[ti].push(e);
                        proof {
                            assert forall|j: int|
                                0 <= j < count implies #[trigger] w.map.blocked@[j] == blocked_upto(
                                *old(w),
                                j,
                                e + 1 as int,
                            ) && (#[trigger] w.map.tile_content@[j])@ == content_list(
                                *old(w),
                                j,
                                e + 1 as int,
                            ) by {
                                assert(pre.map.blocked@[j] == blocked_upto(*old(w), j, e as int));
                                assert(pre.map.tile_content@[j]@ == content_list(
                                    *old(w),
                                    j,
                                    e as int,
                                ));
                                if j == ti as int {
                                    assert(occupies(*old(w), e as int, j));
                                } else {
                                    assert(!occupies(*old(w), e as int, j));
                                }
                            }
                        }
                    },
                    None => {
                        proof {
                            assert forall|j: int|
                                0 <= j < count implies #[trigger] w.map.blocked@[j] == blocked_upto(
                                *old(w),
                                j,
                                e + 1 as int,
                            ) && (#[trigger] w.map.tile_content@[j])@ == content_list(
                                *old(w),
                                j,
                                e + 1 as int,
                            ) by {
                                assert(!occupies(*old(w), e as int, j));
                            }
                        }
                    },
                }
            } else {
                proof {
                    assert forall|j: int|
                        0 <= j < count implies #[trigger] w.map.blocked@[j] == blocked_upto(
                        *old(w),
                        j,
                        e + 1 as int,
                    ) && (#[trigger] w.map.tile_content@[j])@ == content_list(
                        *old(w),
                        j,
                        e + 1 as int,
                    ) by {
                        assert(!occupies(*old(w), e as int, j));
                    }
                }
            }
            e = e + 1;
        }
        proof {
            assert forall|ee: int| 0 <= ee < w.n() implies #[trigger] w.entity_ok(ee) by {
                assert(old(w).entity_ok(ee));
            }
            assert forall|x: int, y: int|
                w.map.in_bounds(x, y) && !w.map.interior(x, y) implies #[trigger] w.map.tile_at(
                x,
                y,
            ) == TileType::Wall by {
                assert(old(w).map.tile_at(x, y) == TileType::Wall);
            }
            assert forall|t: int|
                0 <= t < w.map.tile_content@.len() implies crate::world::id_list_ok(
                (#[trigger] w.map.tile_content@[t])@,
                w.n(),
            ) by {
                lemma_content_list_ok(*old(w), t, old(w).n());
            }
        }
    }
}

} // verus!
