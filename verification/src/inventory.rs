//! Inventory transfer: pickup and drop queues, drained completely once per
//! turn, in insertion order.  A live item always has exactly one of a map
//! position and a backpack owner; a request naming a stale entity is a
//! no-op.

use vstd::prelude::*;

use crate::world::DropRequest;
use crate::world::LogEvent;
use crate::world::PickupRequest;
use crate::world::Position;
use crate::world::World;

verus! {

pub struct ItemCollectionSystem {}

pub struct ItemDropSystem {}

/// A pickup request that actually does something: the item is a live item
/// lying on the map.
pub open spec fn pickup_ok(
    alive: Seq<bool>,
    items: Seq<bool>,
    positions: Seq<Option<Position>>,
    req: PickupRequest,
) -> bool {
    &&& alive[req.item as int]
    &&& items[req.item as int]
    &&& positions[req.item as int] is Some
}

/// The positions and owners after one pickup request.
pub open spec fn pickup_step(
    alive: Seq<bool>,
    items: Seq<bool>,
    positions: Seq<Option<Position>>,
    backpack: Seq<Option<usize>>,
    req: PickupRequest,
) -> (Seq<Option<Position>>, Seq<Option<usize>>) {
    if pickup_ok(alive, items, positions, req) {
        (
            positions.update(req.item as int, Option::<Position>::None),
            backpack.update(req.item as int, Some(req.collector)),
        )
    } else {
        (positions, backpack)
    }
}

/// The positions and owners after the first `k` requests of the queue.
pub open spec fn pickup_fold(
    alive: Seq<bool>,
    items: Seq<bool>,
    positions: Seq<Option<Position>>,
    backpack: Seq<Option<usize>>,
    q: Seq<PickupRequest>,
    k: int,
) -> (Seq<Option<Position>>, Seq<Option<usize>>)
    decreases k,
{
    if k <= 0 {
        (positions, backpack)
    } else {
        let prev = pickup_fold(alive, items, positions, backpack, q, k - 1);
        pickup_step(alive, items, prev.0, prev.1, q[k - 1])
    }
}

/// A drop request that actually does something: the item is a live carried
/// item and the dropper stands somewhere.
pub open spec fn drop_ok(
    alive: Seq<bool>,
    items: Seq<bool>,
    positions: Seq<Option<Position>>,
    backpack: Seq<Option<usize>>,
    req: DropRequest,
) -> bool {
    &&& alive[req.item as int]
    &&& items[req.item as int]
    &&& backpack[req.item as int] is Some
    &&& positions[req.dropper as int] is Some
}

/// The positions and owners after one drop request: the item lands on the
/// dropper's current tile.
pub open spec fn drop_step(
    alive: Seq<bool>,
    items: Seq<bool>,
    positions: Seq<Option<Position>>,
    backpack: Seq<Option<usize>>,
    req: DropRequest,
) -> (Seq<Option<Position>>, Seq<Option<usize>>) {
    if drop_ok(alive, items, positions, backpack, req) {
        (
            positions.update(req.item as int, positions[req.dropper as int]),
            backpack.update(req.item as int, Option::<usize>::None),
        )
    } else {
        (positions, backpack)
    }
}

/// The positions and owners after the first `k` requests of the queue.
pub open spec fn drop_fold(
    alive: Seq<bool>,
    items: Seq<bool>,
    positions: Seq<Option<Position>>,
    backpack: Seq<Option<usize>>,
    q: Seq<DropRequest>,
    k: int,
) -> (Seq<Option<Position>>, Seq<Option<usize>>)
    decreases k,
{
    if k <= 0 {
        (positions, backpack)
    } else {
        let prev = drop_fold(alive, items, positions, backpack, q, k - 1);
        drop_step(alive, items, prev.0, prev.1, q[k - 1])
    }
}

/// The narration appended by the first `k` pickup requests: one event per
/// valid pickup collected by the player, in queue order; nothing for other
/// collectors or stale requests.
pub open spec fn pickup_events(
    alive: Seq<bool>,
    items: Seq<bool>,
    positions: Seq<Option<Position>>,
    backpack: Seq<Option<usize>>,
    q: Seq<PickupRequest>,
    player: usize,
    k: int,
) -> Seq<LogEvent>
    decreases k,
{
    if k <= 0 {
        Seq::empty()
    } else {
        let prev = pickup_events(alive, items, positions, backpack, q, player, k - 1);
        let st = pickup_fold(alive, items, positions, backpack, q, k - 1);
        if pickup_ok(alive, items, st.0, q[k - 1]) && q[k - 1].collector == player {
            prev.push(LogEvent::PickedUp { item: q[k - 1].item })
        } else {
            prev
        }
    }
}

/// The narration appended by the first `k` drop requests: one event per
/// valid drop by the player, in queue order; nothing for other droppers or
/// stale requests.
pub open spec fn drop_events(
    alive: Seq<bool>,
    items: Seq<bool>,
    positions: Seq<Option<Position>>,
    backpack: Seq<Option<usize>>,
    q: Seq<DropRequest>,
    player: usize,
    k: int,
) -> Seq<LogEvent>
    decreases k,
{
    if k <= 0 {
        Seq::empty()
    } else {
        let prev = drop_events(alive, items, positions, backpack, q, player, k - 1);
        let st = drop_fold(alive, items, positions, backpack, q, k - 1);
        if drop_ok(alive, items, st.0, st.1, q[k - 1]) && q[k - 1].dropper == player {
            prev.push(LogEvent::Dropped { item: q[k - 1].item })
        } else {
            prev
        }
    }
}

/// An item picked up by an entity standing on its tile and dropped again by
/// the same entity on the same turn's tile ends exactly where it began: the
/// pickup removes its position and records the owner, the drop removes the
/// owner and restores the original position.
pub proof fn lemma_pickup_drop_roundtrip(
    alive: Seq<bool>,
    items: Seq<bool>,
    positions: Seq<Option<Position>>,
    backpack: Seq<Option<usize>>,
    item: usize,
    collector: usize,
)
    requires
        positions.len() == backpack.len() == alive.len() == items.len(),
        item < alive.len(),
        collector < alive.len(),
        item != collector,
        alive[item as int],
        items[item as int],
        positions[item as int] is Some,
        positions[collector as int] == positions[item as int],
    ensures
        ({
            let picked = pickup_step(
                alive,
                items,
                positions,
                backpack,
                PickupRequest { item, collector },
            );
            let dropped = drop_step(
                alive,
                items,
                picked.0,
                picked.1,
                DropRequest { dropper: collector, item },
            );
            dropped.0[item as int] == positions[item as int] && dropped.1[item as int] is None
                && dropped.0[collector as int] == positions[collector as int]
        }),
{
}


/// The pickup stage as a relation between worlds and logs: exactly the
/// contract of [`ItemCollectionSystem::run`].
pub open spec fn spec_pickup_run(
    pre: World,
    post: World,
    pre_log: Seq<LogEvent>,
    post_log: Seq<LogEvent>,
) -> bool {
    &&& post.wf()
    &&& ({
        let folded = pickup_fold(
            pre.alive@,
            pre.items@,
            pre.positions@,
            pre.backpack@,
            pre.pickup_queue@,
            pre.pickup_queue@.len() as int,
        );
        post.positions@ == folded.0 && post.backpack@ == folded.1
    })
    &&& post.pickup_queue@.len() == 0
    &&& post == (World {
        positions: post.positions,
        backpack: post.backpack,
        pickup_queue: post.pickup_queue,
        ..pre
    })
    &&& post_log == pre_log + pickup_events(
        pre.alive@,
        pre.items@,
        pre.positions@,
        pre.backpack@,
        pre.pickup_queue@,
        pre.player,
        pre.pickup_queue@.len() as int,
    )
}

/// The drop stage as a relation between worlds and logs: exactly the
/// contract of [`ItemDropSystem::run`].
pub open spec fn spec_drop_run(
    pre: World,
    post: World,
    pre_log: Seq<LogEvent>,
    post_log: Seq<LogEvent>,
) -> bool {
    &&& post.wf()
    &&& ({
        let folded = drop_fold(
            pre.alive@,
            pre.items@,
            pre.positions@,
            pre.backpack@,
            pre.drop_queue@,
            pre.drop_queue@.len() as int,
        );
        post.positions@ == folded.0 && post.backpack@ == folded.1
    })
    &&& post.drop_queue@.len() == 0
    &&& post == (World {
        positions: post.positions,
        backpack: post.backpack,
        drop_queue: post.drop_queue,
        ..pre
    })
    &&& post_log == pre_log + drop_events(
        pre.alive@,
        pre.items@,
        pre.positions@,
        pre.backpack@,
        pre.drop_queue@,
        pre.player,
        pre.drop_queue@.len() as int,
    )
}

impl ItemCollectionSystem {
    /// Drain the pickup queue in order: each valid request moves the item
    /// off the map into the collector's backpack; the player's pickups are
    /// narrated; stale requests do nothing.
    #[verifier::rlimit(100)]
    pub fn run(w: &mut World, log: &mut Vec<LogEvent>)
        requires
            old(w).wf(),
        ensures
            final(w).wf(),
            ({
                let folded = pickup_fold(
                    old(w).alive@,
                    old(w).items@,
                    old(w).positions@,
                    old(w).backpack@,
                    old(w).pickup_queue@,
                    old(w).pickup_queue@.len() as int,
                );
                final(w).positions@ == folded.0 && final(w).backpack@ == folded.1
            }),
            final(w).pickup_queue@.len() == 0,
            *final(w) == (World {
                positions: final(w).positions,
                backpack: final(w).backpack,
                pickup_queue: final(w).pickup_queue,
                ..*old(w)
            }),
            final(log)@ == old(log)@ + pickup_events(
                old(w).alive@,
                old(w).items@,
                old(w).positions@,
                old(w).backpack@,
                old(w).pickup_queue@,
                old(w).player,
                old(w).pickup_queue@.len() as int,
            ),
    {
        let qlen = w.pickup_queue.len();
        let mut k: usize = 0;
        while k < qlen
            invariant
                old(w).wf(),
                qlen == old(w).pickup_queue@.len(),
                k <= qlen,
                w.wf(),
                w.n() == old(w).n(),
                ({
                    let folded = pickup_fold(
                        old(w).alive@,
                        old(w).items@,
                        old(w).positions@,
                        old(w).backpack@,
                        old(w).pickup_queue@,
                        k as int,
                    );
                    w.positions@ == folded.0 && w.backpack@ == folded.1
                }),
                *w == (World { positions: w.positions, backpack: w.backpack, ..*old(w) }),
                log@ == old(log)@ + pickup_events(
                    old(w).alive@,
                    old(w).items@,
                    old(w).positions@,
                    old(w).backpack@,
                    old(w).pickup_queue@,
                    old(w).player,
                    k as int,
                ),
            decreases qlen - k,
        {
            let ghost pre = *w;
            let req = w.pickup_queue[k];
            let valid = w.alive[req.item] && w.items[req.item] && w.positions[req.item].is_some();
            proof {
                assert(valid == pickup_ok(
                    old(w).alive@,
                    old(w).items@,
                    pickup_fold(
                        old(w).alive@,
                        old(w).items@,
                        old(w).positions@,
                        old(w).backpack@,
                        old(w).pickup_queue@,
                        k as int,
                    ).0,
                    old(w).pickup_queue@[k as int],
                ));
            }
            if valid {
                w.positions[req.item] = None;
                w.backpack[req.item] = Some(req.collector);
                if req.collector == w.player {
                    log.push(LogEvent::PickedUp { item: req.item });
                }
                proof {
                    assert(pre.queues_ok());
                    assert((pre.pickup_queue@[k as int]).collector < pre.n());
                    assert forall|ii: int| 0 <= ii < w.n() implies #[trigger] w.entity_ok(ii) by {
                        assert(pre.entity_ok(ii));
                        if ii == req.item as int {
                            assert(w.positions@[ii] is None);
                            assert(w.backpack@[ii] == Some(req.collector));
                        } else {
                            assert(w.positions@[ii] == pre.positions@[ii]);
                            assert(w.backpack@[ii] == pre.backpack@[ii]);
                        }
                    }
                }
            }
            proof {
                assert(log@ =~= old(log)@ + pickup_events(
                    old(w).alive@,
                    old(w).items@,
                    old(w).positions@,
                    old(w).backpack@,
                    old(w).pickup_queue@,
                    old(w).player,
                    k + 1 as int,
                ));
            }
            k = k + 1;
        }
        let ghost done = *w;
        w.pickup_queue.clear();
        proof {
            assert forall|ii: int| 0 <= ii < w.n() implies #[trigger] w.entity_ok(ii) by {
                assert(done.entity_ok(ii));
            }
        }
    }
}

impl ItemDropSystem {
    /// Drain the drop queue in order: each valid request moves the item out
    /// of the backpack onto the dropper's current tile; the player's drops
    /// are narrated; stale requests do nothing.
    #[verifier::rlimit(100)]
    pub fn run(w: &mut World, log: &mut Vec<LogEvent>)
        requires
            old(w).wf(),
        ensures
            final(w).wf(),
            ({
                let folded = drop_fold(
                    old(w).alive@,
                    old(w).items@,
                    old(w).positions@,
                    old(w).backpack@,
                    old(w).drop_queue@,
                    old(w).drop_queue@.len() as int,
                );
                final(w).positions@ == folded.0 && final(w).backpack@ == folded.1
            }),
            final(w).drop_queue@.len() == 0,
            *final(w) == (World {
                positions: final(w).positions,
                backpack: final(w).backpack,
                drop_queue: final(w).drop_queue,
                ..*old(w)
            }),
            final(log)@ == old(log)@ + drop_events(
                old(w).alive@,
                old(w).items@,
                old(w).positions@,
                old(w).backpack@,
                old(w).drop_queue@,
                old(w).player,
                old(w).drop_queue@.len() as int,
            ),
    {
        let qlen = w.drop_queue.len();
        let mut k: usize = 0;
        while k < qlen
            invariant
                old(w).wf(),
                qlen == old(w).drop_queue@.len(),
                k <= qlen,
                w.wf(),
                w.n() == old(w).n(),
                ({
                    let folded = drop_fold(
                        old(w).alive@,
                        old(w).items@,
                        old(w).positions@,
                        old(w).backpack@,
                        old(w).drop_queue@,
                        k as int,
                    );
                    w.positions@ == folded.0 && w.backpack@ == folded.1
                }),
                *w == (World { positions: w.positions, backpack: w.backpack, ..*old(w) }),
                log@ == old(log)@ + drop_events(
                    old(w).alive@,
                    old(w).items@,
                    old(w).positions@,
                    old(w).backpack@,
                    old(w).drop_queue@,
                    old(w).player,
                    k as int,
                ),
            decreases qlen - k,
        {
            let ghost pre = *w;
            let req = w.drop_queue[k];
            let valid = w.alive[req.item] && w.items[req.item] && w.backpack[req.item].is_some()
                && w.positions[req.dropper].is_some();
            proof {
                let ghost st = drop_fold(
                    old(w).alive@,
                    old(w).items@,
                    old(w).positions@,
                    old(w).backpack@,
                    old(w).drop_queue@,
                    k as int,
                );
                assert(valid == drop_ok(
                    old(w).alive@,
                    old(w).items@,
                    st.0,
                    st.1,
                    old(w).drop_queue@[k as int],
                ));
            }
            if valid {
                let dp = w.positions[req.dropper];
                w.positions[req.item] = dp;
                w.backpack[req.item] = None;
                if req.dropper == w.player {
                    log.push(LogEvent::Dropped { item: req.item });
                }
                proof {
                    assert(pre.queues_ok());
                    assert((pre.drop_queue@[k as int]).dropper < pre.n());
                    assert(pre.entity_ok(req.dropper as int));
                    assert forall|ii: int| 0 <= ii < w.n() implies #[trigger] w.entity_ok(ii) by {
                        assert(pre.entity_ok(ii));
                        if ii == req.item as int {
                            assert(w.positions@[ii] == pre.positions@[req.dropper as int]);
                            assert(w.backpack@[ii] is None);
                        } else {
                            assert(w.positions@[ii] == pre.positions@[ii]);
                            assert(w.backpack@[ii] == pre.backpack@[ii]);
                        }
                    }
                }
            }
            proof {
                assert(log@ =~= old(log)@ + drop_events(
                    old(w).alive@,
                    old(w).items@,
                    old(w).positions@,
                    old(w).backpack@,
                    old(w).drop_queue@,
                    old(w).player,
                    k + 1 as int,
                ));
            }
            k = k + 1;
        }
        let ghost done = *w;
        w.drop_queue.clear();
        proof {
            assert forall|ii: int| 0 <= ii < w.n() implies #[trigger] w.entity_ok(ii) by {
                assert(done.entity_ok(ii));
            }
        }
    }
}

} // verus!
