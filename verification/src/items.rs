//! The item targeting engine: resolve the entity set affected by one use
//! of an item (the user itself, a single tile's occupants, or everyone in
//! a field-of-view-bounded blast), then apply healing, queued damage and
//! confusion, and finally consume the item if any effect actually applied.

use vstd::prelude::*;

use crate::fov;
use crate::world::CombatStats;
use crate::world::LogEvent;
use crate::world::Position;
use crate::world::UseRequest;
use crate::world::World;

verus! {

pub struct ItemUseSystem {}

/// Tile `t` belongs to the blast centered at (cx, cy): within the
/// field-of-view bound of the blast radius, and strictly inside the map
/// border.  Tiles outside the interior are never part of a blast.
pub open spec fn blast_includes(w: World, cx: int, cy: int, radius: int, t: int) -> bool {
    &&& fov::visible_idx(w.map, cx, cy, radius, t)
    &&& w.map.interior(t % (w.map.width as int), t / (w.map.width as int))
}

/// Occupants of every blast tile among tiles `0..t`, in tile order.
pub open spec fn aoe_targets(w: World, cx: int, cy: int, radius: int, t: int) -> Seq<usize>
    decreases t,
{
    if t <= 0 {
        Seq::empty()
    } else if blast_includes(w, cx, cy, radius, t - 1) {
        aoe_targets(w, cx, cy, radius, t - 1) + w.map.tile_content@[t - 1]@
    } else {
        aoe_targets(w, cx, cy, radius, t - 1)
    }
}

/// The affected entities of one use request, in priority order: no target
/// tile means the user itself; a target tile with an area item means the
/// blast's occupants; a plain target tile means that tile's occupants.
pub open spec fn resolved_targets(w: World, user: usize, item: usize, target: Option<
    Position,
>) -> Seq<usize> {
    if target is None {
        seq![user]
    } else if w.aoe@[item as int] is Some {
        aoe_targets(
            w,
            target->0.x as int,
            target->0.y as int,
            w.aoe@[item as int]->0 as int,
            w.map.tile_count(),
        )
    } else {
        w.map.tile_content@[w.map.spec_idx(target->0.x as int, target->0.y as int)]@
    }
}

/// A blast never includes a tile outside the map's interior: whatever the
/// radius, tiles on or beyond the border ring contribute no occupants.
pub proof fn lemma_blast_stays_interior(w: World, cx: int, cy: int, radius: int, t: int)
    ensures
        blast_includes(w, cx, cy, radius, t) ==> w.map.interior(
            t % (w.map.width as int),
            t / (w.map.width as int),
        ),
{
}

/// Target resolution only reads the map and the area-of-effect store, so
/// any two worlds that agree on those resolve every request alike.
pub proof fn lemma_aoe_targets_same(w1: World, w2: World, cx: int, cy: int, radius: int, t: int)
    requires
        w1.map == w2.map,
    ensures
        aoe_targets(w1, cx, cy, radius, t) == aoe_targets(w2, cx, cy, radius, t),
    decreases t,
{
    if t > 0 {
        lemma_aoe_targets_same(w1, w2, cx, cy, radius, t - 1);
    }
}

/// A blast of radius 0 at an interior tile covers exactly that tile, so
/// its targets are exactly that tile's occupants.
pub proof fn lemma_blast_radius_zero(w: World, cx: int, cy: int, t: int)
    requires
        w.map.wf(),
        w.map.in_bounds(cx, cy),
        0 <= t <= w.map.tile_count(),
    ensures
        aoe_targets(w, cx, cy, 0, t) == (if w.map.interior(cx, cy) && t > w.map.spec_idx(cx, cy) {
            w.map.tile_content@[w.map.spec_idx(cx, cy)]@
        } else {
            Seq::<usize>::empty()
        }),
    decreases t,
{
    if t > 0 {
        lemma_blast_radius_zero(w, cx, cy, t - 1);
        let x = (t - 1) % (w.map.width as int);
        let y = (t - 1) / (w.map.width as int);
        w.map.lemma_idx_inverse(t - 1);
        if blast_includes(w, cx, cy, 0, t - 1) {
            assert(fov::spec_visible(w.map, cx, cy, x, y, 0));
            assert((x - cx) * (x - cx) + (y - cy) * (y - cy) <= 0);
            assert((x - cx) * (x - cx) >= 0 && (y - cy) * (y - cy) >= 0) by (nonlinear_arith);
            assert((x - cx) * (x - cx) == 0 && (y - cy) * (y - cy) == 0);
            assert(x == cx && y == cy) by (nonlinear_arith)
                requires
                    (x - cx) * (x - cx) == 0 && (y - cy) * (y - cy) == 0,
            ;
            assert(t - 1 == w.map.spec_idx(cx, cy));
            assert(w.map.interior(cx, cy));
            assert(aoe_targets(w, cx, cy, 0, t - 1) == Seq::<usize>::empty());
            assert(aoe_targets(w, cx, cy, 0, t) == Seq::<usize>::empty() + w.map.tile_content@[t
                - 1]@);
            assert(Seq::<usize>::empty() + w.map.tile_content@[t - 1]@ =~= w.map.tile_content@[t
                - 1]@);
        } else {
            if w.map.interior(cx, cy) && t - 1 == w.map.spec_idx(cx, cy) {
                w.map.lemma_idx_injective(x, y, cx, cy);
                assert(x == cx && y == cy);
                assert(fov::line_steps(cx, cy, cx, cy) == 0);
                assert(fov::line_clear(w.map, cx, cy, cx, cy));
                assert(fov::spec_visible(w.map, cx, cy, cx, cy, 0)) by {
                    assert((cx - cx) * (cx - cx) + (cy - cy) * (cy - cy) == 0);
                }
                assert(blast_includes(w, cx, cy, 0, t - 1));
                assert(false);
            }
        }
    }
}

impl ItemUseSystem {
    /// Compute the target set of one use request.  Every returned id is a
    /// live-world entity slot; for an area item every contributing tile
    /// lies strictly inside the map border.
    pub fn resolve_use_targets(w: &World, user: usize, item: usize, target: Option<Position>) -> (ts:
        Vec<usize>)
        requires
            w.wf(),
            user < w.n(),
            item < w.n(),
            target is Some ==> w.map.in_bounds(target->0.x as int, target->0.y as int),
        ensures
            ts@ == resolved_targets(*w, user, item, target),
            forall|k: int| 0 <= k < ts@.len() ==> (#[trigger] ts@[k]) < w.n(),
    {
        match target {
            None => {
                let mut ts: Vec<usize> = Vec::new();
                ts.push(user);
                proof {
                    assert(ts@ =~= seq![user]);
                }
                ts
            },
            Some(tp) => {
                match w.aoe[item] {
                    None => {
                        let ti = w.map.xy_idx(tp.x, tp.y);
                        let mut ts: Vec<usize> = Vec::new();
                        let len = w.map.tile_content[ti].len();
                        let mut j: usize = 0;
                        while j < len
                            invariant
                                w.wf(),
                                ti < w.map.tile_content@.len(),
                                len == w.map.tile_content@[ti as int]@.len(),
                                j <= len,
                                ts@ == w.map.tile_content@[ti as int]@.take(j as int),
                            decreases len - j,
                        {
                            let e = w.map.tile_content[ti][j];
                            ts.push(e);
                            proof {
                                assert(ts@ =~= w.map.tile_content@[ti as int]@.take(j + 1 as int));
                            }
                            j = j + 1;
                        }
                        proof {
                            assert(w.map.tile_content@[ti as int]@.take(len as int) =~= w
                                .map.tile_content@[ti as int]@);
                            assert(crate::world::id_list_ok(
                                w.map.tile_content@[ti as int]@,
                                w.n(),
                            ));
                        }
                        ts
                    },
                    Some(radius) => {
                        proof {
                            assert(w.entity_ok(item as int));
                        }
                        let vis = fov::field_of_view(&w.map, tp.x, tp.y, radius);
                        let count = w.map.tiles.len();
                        let wd = w.map.width as usize;
                        let mut ts: Vec<usize> = Vec::new();
                        let mut t: usize = 0;
                        while t < count
                            invariant
                                w.wf(),
                                count == w.map.tile_count(),
                                wd == w.map.width as int,
                                t <= count,
                                vis@.len() == count,
                                forall|i: int|
                                    0 <= i < count ==> #[trigger] vis@[i] == fov::visible_idx(
                                        w.map,
                                        tp.x as int,
                                        tp.y as int,
                                        radius as int,
                                        i,
                                    ),
                                ts@ == aoe_targets(
                                    *w,
                                    tp.x as int,
                                    tp.y as int,
                                    radius as int,
                                    t as int,
                                ),
                                forall|k: int| 0 <= k < ts@.len() ==> (#[trigger] ts@[k]) < w.n(),
                            decreases count - t,
                        {
                            let x = (t % wd) as i32;
                            let y = (t / wd) as i32;
                            proof {
                                w.map.lemma_idx_inverse(t as int);
                            }
                            let inside = vis[t] && x > 0 && x < w.map.width - 1 && y > 0 && y
                                < w.map.height - 1;
                            if inside {
                                let len = w.map.tile_content[t].len();
                                let mut j: usize = 0;
                                while j < len
                                    invariant
                                        w.wf(),
                                        t < w.map.tile_content@.len(),
                                        len == w.map.tile_content@[t as int]@.len(),
                                        j <= len,
                                        ts@ == aoe_targets(
                                            *w,
                                            tp.x as int,
                                            tp.y as int,
                                            radius as int,
                                            t as int,
                                        ) + w.map.tile_content@[t as int]@.take(j as int),
                                        forall|k: int|
                                            0 <= k < ts@.len() ==> (#[trigger] ts@[k]) < w.n(),
                                    decreases len - j,
                                {
                                    let e = w.map.tile_content[t][j];
                                    ts.push(e);
                                    proof {
                                        assert(crate::world::id_list_ok(
                                            w.map.tile_content@[t as int]@,
                                            w.n(),
                                        ));
                                        assert(ts@ =~= aoe_targets(
                                            *w,
                                            tp.x as int,
                                            tp.y as int,
                                            radius as int,
                                            t as int,
                                        ) + w.map.tile_content@[t as int]@.take(j + 1 as int));
                                    }
                                    j = j + 1;
                                }
                                proof {
                                    assert(w.map.tile_content@[t as int]@.take(len as int) =~= w
                                        .map.tile_content@[t as int]@);
                                    assert(blast_includes(
                                        *w,
                                        tp.x as int,
                                        tp.y as int,
                                        radius as int,
                                        t as int,
                                    ));
                                }
                            } else {
                                proof {
                                    assert(!blast_includes(
                                        *w,
                                        tp.x as int,
                                        tp.y as int,
                                        radius as int,
                                        t as int,
                                    ));
                                    assert(ts@ =~= aoe_targets(
                                        *w,
                                        tp.x as int,
                                        tp.y as int,
                                        radius as int,
                                        t + 1 as int,
                                    ));
                                }
                            }
                            t = t + 1;
                        }
                        ts
                    },
                }
            },
        }
    }
}

pub open spec fn min_i(a: int, b: int) -> int {
    if a < b {
        a
    } else {
        b
    }
}

/// Heal one target: hit points rise by `amount` but never above max.
/// Targets without combat stats are unaffected.
pub open spec fn heal_one(stats: Seq<Option<CombatStats>>, t: int, amount: int) -> Seq<
    Option<CombatStats>,
> {
    if stats[t] is Some {
        stats.update(
            t,
            Some(
                CombatStats {
                    hp: min_i(stats[t]->0.max_hp as int, stats[t]->0.hp + amount) as i32,
                    ..stats[t]->0
                },
            ),
        )
    } else {
        stats
    }
}

pub open spec fn heal_fold(
    stats: Seq<Option<CombatStats>>,
    targets: Seq<usize>,
    amount: int,
    k: int,
) -> Seq<Option<CombatStats>>
    decreases k,
{
    if k <= 0 {
        stats
    } else {
        heal_one(heal_fold(stats, targets, amount, k - 1), targets[k - 1] as int, amount)
    }
}

/// Queue `amount` on each target's pending-damage list, in target order;
/// it is applied by the next combat resolution, not this turn's.
pub open spec fn damage_fold(
    pending: Seq<Seq<i32>>,
    targets: Seq<usize>,
    amount: i32,
    k: int,
) -> Seq<Seq<i32>>
    decreases k,
{
    if k <= 0 {
        pending
    } else {
        let p = damage_fold(pending, targets, amount, k - 1);
        p.update(targets[k - 1] as int, p[targets[k - 1] as int].push(amount))
    }
}

/// Give each target a fresh confusion component with the given duration,
/// replacing any it already had.
pub open spec fn conf_fold(
    conf: Seq<Option<i32>>,
    targets: Seq<usize>,
    turns: i32,
    k: int,
) -> Seq<Option<i32>>
    decreases k,
{
    if k <= 0 {
        conf
    } else {
        conf_fold(conf, targets, turns, k - 1).update(targets[k - 1] as int, Some(turns))
    }
}

/// Healing reached somebody: some target carries combat stats.
pub open spec fn heal_applied(stats: Seq<Option<CombatStats>>, targets: Seq<usize>) -> bool {
    exists|i: int| 0 <= i < targets.len() && stats[(#[trigger] targets[i]) as int] is Some
}

/// The narration of the heal branch: one event per target that carries
/// combat stats, in target order.
pub open spec fn heal_events(
    stats: Seq<Option<CombatStats>>,
    targets: Seq<usize>,
    item: usize,
    amount: i32,
    k: int,
) -> Seq<LogEvent>
    decreases k,
{
    if k <= 0 {
        Seq::empty()
    } else {
        let prev = heal_events(stats, targets, item, amount, k - 1);
        if stats[targets[k - 1] as int] is Some {
            prev.push(LogEvent::Healed { item, target: targets[k - 1], amount })
        } else {
            prev
        }
    }
}

/// The narration of the damage branch: one event per target, in order.
pub open spec fn damage_events(targets: Seq<usize>, item: usize, amount: i32, k: int) -> Seq<
    LogEvent,
> {
    Seq::new(
        (if k < 0 {
            0
        } else {
            k
        }) as nat,
        |i: int| LogEvent::ItemDamage { item, target: targets[i], amount },
    )
}

/// The narration of the confusion branch: one event per target, in order.
pub open spec fn confusion_events(targets: Seq<usize>, item: usize, k: int) -> Seq<LogEvent> {
    Seq::new(
        (if k < 0 {
            0
        } else {
            k
        }) as nat,
        |i: int| LogEvent::Confused { item, target: targets[i] },
    )
}

/// The narration appended by one use request: the player's applications in
/// branch order (heal, damage, confusion); any other user appends nothing.
pub open spec fn use_request_events(
    w: World,
    stats: Seq<Option<CombatStats>>,
    conf: Seq<Option<i32>>,
    req: UseRequest,
) -> Seq<LogEvent> {
    if use_ok(w, req) && req.user == w.player {
        let tg = resolved_targets(w, req.user, req.item, req.target);
        let healing = w.healing@[req.item as int];
        let inflicts = w.inflicts@[req.item as int];
        let itemconf = conf[req.item as int];
        (if healing is Some {
            heal_events(stats, tg, req.item, healing->0, tg.len() as int)
        } else {
            Seq::<LogEvent>::empty()
        }) + (if inflicts is Some {
            damage_events(tg, req.item, inflicts->0, tg.len() as int)
        } else {
            Seq::<LogEvent>::empty()
        }) + (if itemconf is Some {
            confusion_events(tg, req.item, tg.len() as int)
        } else {
            Seq::<LogEvent>::empty()
        })
    } else {
        Seq::<LogEvent>::empty()
    }
}

/// A use request on stale entities is dropped without effect.
pub open spec fn use_ok(w: World, req: UseRequest) -> bool {
    &&& w.alive@[req.user as int]
    &&& w.alive@[req.item as int]
    &&& w.items@[req.item as int]
}

/// What one use request does to the mutable stores (combat stats, pending
/// damage, confusion, scheduled deletions), given their current values.
/// The item is consumed — scheduled for the commit — exactly when it is
/// consumable and at least one of its effects actually applied.
pub open spec fn use_request(
    w: World,
    stats: Seq<Option<CombatStats>>,
    pending: Seq<Seq<i32>>,
    conf: Seq<Option<i32>>,
    deletes: Seq<usize>,
    req: UseRequest,
) -> (Seq<Option<CombatStats>>, Seq<Seq<i32>>, Seq<Option<i32>>, Seq<usize>) {
    if use_ok(w, req) {
        let tg = resolved_targets(w, req.user, req.item, req.target);
        let healing = w.healing@[req.item as int];
        let inflicts = w.inflicts@[req.item as int];
        let itemconf = conf[req.item as int];
        let s1 = if healing is Some {
            heal_fold(stats, tg, healing->0 as int, tg.len() as int)
        } else {
            stats
        };
        let p1 = if inflicts is Some {
            damage_fold(pending, tg, inflicts->0, tg.len() as int)
        } else {
            pending
        };
        let c1 = if itemconf is Some {
            conf_fold(conf, tg, itemconf->0, tg.len() as int)
        } else {
            conf
        };
        let used = (healing is Some && heal_applied(stats, tg)) || (inflicts is Some && tg.len()
            > 0) || (itemconf is Some && tg.len() > 0);
        let d1 = if used && w.consumables@[req.item as int] {
            deletes.push(req.item)
        } else {
            deletes
        };
        (s1, p1, c1, d1)
    } else {
        (stats, pending, conf, deletes)
    }
}

/// The pending-damage store read as a sequence of sequences.
pub open spec fn views_of(s: Seq<Vec<i32>>) -> Seq<Seq<i32>> {
    Seq::new(s.len(), |i: int| s[i]@)
}

/// The narration appended by the first `k` requests of the queue.
pub open spec fn use_fold_events(w: World, q: Seq<UseRequest>, k: int) -> Seq<LogEvent>
    decreases k,
{
    if k <= 0 {
        Seq::empty()
    } else {
        let p = use_fold(w, q, k - 1);
        use_fold_events(w, q, k - 1) + use_request_events(w, p.0, p.2, q[k - 1])
    }
}

/// The four mutable stores after the first `k` requests of the queue.
pub open spec fn use_fold(w: World, q: Seq<UseRequest>, k: int) -> (
    Seq<Option<CombatStats>>,
    Seq<Seq<i32>>,
    Seq<Option<i32>>,
    Seq<usize>,
)
    decreases k,
{
    if k <= 0 {
        (w.stats@, views_of(w.pending_damage@), w.confusion@, w.pending_deletes@)
    } else {
        let p = use_fold(w, q, k - 1);
        use_request(w, p.0, p.1, p.2, p.3, q[k - 1])
    }
}

/// A use request reads the world only through the map, the item stores and
/// the liveness flags; two worlds that agree there treat every request
/// alike.
pub proof fn lemma_use_request_same(
    w1: World,
    w2: World,
    stats: Seq<Option<CombatStats>>,
    pending: Seq<Seq<i32>>,
    conf: Seq<Option<i32>>,
    deletes: Seq<usize>,
    req: UseRequest,
)
    requires
        w1.map == w2.map,
        w1.alive == w2.alive,
        w1.items == w2.items,
        w1.aoe == w2.aoe,
        w1.healing == w2.healing,
        w1.inflicts == w2.inflicts,
        w1.consumables == w2.consumables,
        w1.player == w2.player,
    ensures
        use_request(w1, stats, pending, conf, deletes, req) == use_request(
            w2,
            stats,
            pending,
            conf,
            deletes,
            req,
        ),
        use_request_events(w1, stats, conf, req) == use_request_events(w2, stats, conf, req),
{
    lemma_aoe_targets_same(
        w1,
        w2,
        req.target->0.x as int,
        req.target->0.y as int,
        w1.aoe@[req.item as int]->0 as int,
        w1.map.tile_count(),
    );
    assert(resolved_targets(w1, req.user, req.item, req.target) == resolved_targets(
        w2,
        req.user,
        req.item,
        req.target,
    ));
}

impl ItemUseSystem {
    /// Apply one use request: resolve the targets, heal, queue damage and
    /// confuse them as the item provides, narrate the player's actions,
    /// and schedule the item for deletion when it is consumed.
    #[verifier::rlimit(100)]
    pub fn apply_use_request(w: &mut World, log: &mut Vec<LogEvent>, req: UseRequest)
        requires
            old(w).wf(),
            req.user < old(w).n(),
            req.item < old(w).n(),
            req.target is Some ==> old(w).map.in_bounds(
                req.target->0.x as int,
                req.target->0.y as int,
            ),
        ensures
            final(w).wf(),
            ({
                let r = use_request(
                    *old(w),
                    old(w).stats@,
                    views_of(old(w).pending_damage@),
                    old(w).confusion@,
                    old(w).pending_deletes@,
                    req,
                );
                &&& final(w).stats@ == r.0
                &&& views_of(final(w).pending_damage@) == r.1
                &&& final(w).confusion@ == r.2
                &&& final(w).pending_deletes@ == r.3
            }),
            forall|e: int|
                0 <= e < old(w).n() ==> ((#[trigger] final(w).stats@[e]) is Some == (
                old(w).stats@[e] is Some)),
            *final(w) == (World {
                stats: final(w).stats,
                pending_damage: final(w).pending_damage,
                confusion: final(w).confusion,
                pending_deletes: final(w).pending_deletes,
                ..*old(w)
            }),
            final(log)@ == old(log)@ + use_request_events(
                *old(w),
                old(w).stats@,
                old(w).confusion@,
                req,
            ),
    {
        let valid = w.alive[req.user] && w.alive[req.item] && w.items[req.item];
        if !valid {
            proof {
                assert(old(log)@ + use_request_events(*old(w), old(w).stats@, old(w).confusion@, req)
                    =~= old(log)@);
            }
            return ;
        }
        let targets = Self::resolve_use_targets(&*w, req.user, req.item, req.target);
        let ghost tg = targets@;
        let ghost w0 = *old(w);
        let tlen = targets.len();
        let mut used = false;
        match w.healing[req.item] {
            Some(amount) => {
                proof {
                    assert(w0.entity_ok(req.item as int));
                }
                let mut j: usize = 0;
                while j < tlen
                    invariant
                        w0.wf(),
                        w.n() == w0.n(),
                        targets@ == tg,
                        tlen == tg.len(),
                        j <= tlen,
                        forall|i: int| 0 <= i < tg.len() ==> (#[trigger] tg[i]) < w0.n(),
                        w0.healing@[req.item as int] == Some(amount),
                        0 <= amount <= crate::world::STAT_MAX,
                        w.wf(),
                        w.stats@ == heal_fold(w0.stats@, tg, amount as int, j as int),
                        forall|e: int|
                            0 <= e < w0.n() ==> ((#[trigger] w.stats@[e]) is Some == (
                            w0.stats@[e] is Some)),
                        used == (exists|i: int|
                            0 <= i < j && w0.stats@[(#[trigger] tg[i]) as int] is Some),
                        *w == (World { stats: w.stats, ..w0 }),
                        req.user == w0.player ==> log@ == old(log)@ + heal_events(
                            w0.stats@,
                            tg,
                            req.item,
                            amount,
                            j as int,
                        ),
                        req.user != w0.player ==> log@ == old(log)@,
                    decreases tlen - j,
                {
                    let ghost pre = *w;
                    let t = targets[j];
                    proof {
                        assert(w.entity_ok(t as int));
                    }
                    match w.stats[t] {
                        Some(st) => {
                            let nh = if st.hp + amount > st.max_hp {
                                st.max_hp
                            } else {
                                st.hp + amount
                            };
                            w.stats[t] = Some(CombatStats { hp: nh, ..st });
                            used = true;
                            if req.user == w.player {
                                log.push(
                                    LogEvent::Healed { item: req.item, target: t, amount },
                                );
                            }
                            proof {
                                assert forall|ii: int|
                                    0 <= ii < w.n() implies #[trigger] w.entity_ok(ii) by {
                                    assert(pre.entity_ok(ii));
                                }
                            }
                        },
                        None => {},
                    }
                    proof {
                        assert(w.stats@ =~= heal_fold(w0.stats@, tg, amount as int, j + 1 as int));
                        if req.user == w0.player {
                            assert(log@ =~= old(log)@ + heal_events(
                                w0.stats@,
                                tg,
                                req.item,
                                amount,
                                j + 1 as int,
                            ));
                        }
                    }
                    j = j + 1;
                }
                proof {
                    assert(used == heal_applied(w0.stats@, tg));
                }
            },
            None => {},
        }
        let ghost after_heal = *w;
        let ghost log_after_heal = log@;
        match w.inflicts[req.item] {
            Some(amount) => {
                proof {
                    assert(w0.entity_ok(req.item as int));
                }
                let mut j: usize = 0;
                let used0 = used;
                while j < tlen
                    invariant
                        w0.wf(),
                        after_heal.wf(),
                        w.n() == w0.n(),
                        targets@ == tg,
                        tlen == tg.len(),
                        j <= tlen,
                        forall|i: int| 0 <= i < tg.len() ==> (#[trigger] tg[i]) < w0.n(),
                        w0.inflicts@[req.item as int] == Some(amount),
                        0 <= amount <= crate::world::STAT_MAX,
                        after_heal == (World { stats: after_heal.stats, ..w0 }),
                        w.wf(),
                        views_of(w.pending_damage@) == damage_fold(
                            views_of(after_heal.pending_damage@),
                            tg,
                            amount,
                            j as int,
                        ),
                        used == (used0 || j > 0),
                        *w == (World { pending_damage: w.pending_damage, ..after_heal }),
                        req.user == w0.player ==> log@ == log_after_heal + damage_events(
                            tg,
                            req.item,
                            amount,
                            j as int,
                        ),
                        req.user != w0.player ==> log@ == log_after_heal,
                    decreases tlen - j,
                {
                    let ghost pre = *w;
                    let t = targets[j];
                    w.pending_damage[t].push(amount);
                    used = true;
                    if req.user == w.player {
                        log.push(LogEvent::ItemDamage { item: req.item, target: t, amount });
                    }
                    proof {
                        assert forall|ii: int| 0 <= ii < w.n() implies #[trigger] w.entity_ok(
                            ii,
                        ) by {
                            assert(pre.entity_ok(ii));
                        }
                        assert(views_of(w.pending_damage@) =~~= damage_fold(
                            views_of(after_heal.pending_damage@),
                            tg,
                            amount,
                            j + 1 as int,
                        ));
                        if req.user == w0.player {
                            assert(log@ =~= log_after_heal + damage_events(
                                tg,
                                req.item,
                                amount,
                                j + 1 as int,
                            ));
                        }
                    }
                    j = j + 1;
                }
            },
            None => {},
        }
        let ghost after_damage = *w;
        let ghost log_after_damage = log@;
        match w.confusion[req.item] {
            Some(turns) => {
                proof {
                    assert(after_damage.entity_ok(req.item as int));
                }
                let mut j: usize = 0;
                let used1 = used;
                while j < tlen
                    invariant
                        w0.wf(),
                        after_damage.wf(),
                        w.n() == w0.n(),
                        targets@ == tg,
                        tlen == tg.len(),
                        j <= tlen,
                        forall|i: int| 0 <= i < tg.len() ==> (#[trigger] tg[i]) < w0.n(),
                        after_damage.confusion@[req.item as int] == Some(turns),
                        0 <= turns <= crate::world::STAT_MAX,
                        after_damage == (World {
                            stats: after_damage.stats,
                            pending_damage: after_damage.pending_damage,
                            ..w0
                        }),
                        w.wf(),
                        w.confusion@ == conf_fold(after_damage.confusion@, tg, turns, j as int),
                        used == (used1 || j > 0),
                        *w == (World { confusion: w.confusion, ..after_damage }),
                        req.user == w0.player ==> log@ == log_after_damage + confusion_events(
                            tg,
                            req.item,
                            j as int,
                        ),
                        req.user != w0.player ==> log@ == log_after_damage,
                    decreases tlen - j,
                {
                    let ghost pre = *w;
                    let t = targets[j];
                    w.confusion[t] = Some(turns);
                    used = true;
                    if req.user == w.player {
                        log.push(LogEvent::Confused { item: req.item, target: t });
                    }
                    proof {
                        assert forall|ii: int| 0 <= ii < w.n() implies #[trigger] w.entity_ok(
                            ii,
                        ) by {
                            assert(pre.entity_ok(ii));
                        }
                        assert(w.confusion@ =~= conf_fold(
                            after_damage.confusion@,
                            tg,
                            turns,
                            j + 1 as int,
                        ));
                        if req.user == w0.player {
                            assert(log@ =~= log_after_damage + confusion_events(
                                tg,
                                req.item,
                                j + 1 as int,
                            ));
                        }
                    }
                    j = j + 1;
                }
            },
            None => {},
        }
        if used {
            let consumable = w.consumables[req.item];
            if consumable {
                let ghost pre = *w;
                w.pending_deletes.push(req.item);
                proof {
                    assert forall|ii: int| 0 <= ii < w.n() implies #[trigger] w.entity_ok(ii) by {
                        assert(pre.entity_ok(ii));
                    }
                }
            }
        }
        proof {
            assert(log@ =~= old(log)@ + use_request_events(w0, w0.stats@, w0.confusion@, req));
        }
    }
}


/// The item-use stage as a relation between worlds and logs: exactly the
/// contract of [`ItemUseSystem::run`].
pub open spec fn spec_use_run(
    pre: World,
    post: World,
    pre_log: Seq<LogEvent>,
    post_log: Seq<LogEvent>,
) -> bool {
    &&& post.wf()
    &&& ({
        let r = use_fold(pre, pre.use_queue@, pre.use_queue@.len() as int);
        &&& post.stats@ == r.0
        &&& views_of(post.pending_damage@) == r.1
        &&& post.confusion@ == r.2
        &&& post.pending_deletes@ == r.3
    })
    &&& post.use_queue@.len() == 0
    &&& post == (World {
        stats: post.stats,
        pending_damage: post.pending_damage,
        confusion: post.confusion,
        pending_deletes: post.pending_deletes,
        use_queue: post.use_queue,
        ..pre
    })
    &&& post_log == pre_log + use_fold_events(pre, pre.use_queue@, pre.use_queue@.len() as int)
}

impl ItemUseSystem {
    /// Drain the use queue in order, applying each request; the queue
    /// never carries over to the next turn.
    pub fn run(w: &mut World, log: &mut Vec<LogEvent>)
        requires
            old(w).wf(),
        ensures
            final(w).wf(),
            ({
                let r = use_fold(*old(w), old(w).use_queue@, old(w).use_queue@.len() as int);
                &&& final(w).stats@ == r.0
                &&& views_of(final(w).pending_damage@) == r.1
                &&& final(w).confusion@ == r.2
                &&& final(w).pending_deletes@ == r.3
            }),
            final(w).use_queue@.len() == 0,
            *final(w) == (World {
                stats: final(w).stats,
                pending_damage: final(w).pending_damage,
                confusion: final(w).confusion,
                pending_deletes: final(w).pending_deletes,
                use_queue: final(w).use_queue,
                ..*old(w)
            }),
            final(log)@ == old(log)@ + use_fold_events(
                *old(w),
                old(w).use_queue@,
                old(w).use_queue@.len() as int,
            ),
    {
        let qlen = w.use_queue.len();
        let mut k: usize = 0;
        while k < qlen
            invariant
                old(w).wf(),
                qlen == old(w).use_queue@.len(),
                k <= qlen,
                w.wf(),
                w.n() == old(w).n(),
                ({
                    let r = use_fold(*old(w), old(w).use_queue@, k as int);
                    &&& w.stats@ == r.0
                    &&& views_of(w.pending_damage@) == r.1
                    &&& w.confusion@ == r.2
                    &&& w.pending_deletes@ == r.3
                }),
                *w == (World {
                    stats: w.stats,
                    pending_damage: w.pending_damage,
                    confusion: w.confusion,
                    pending_deletes: w.pending_deletes,
                    ..*old(w)
                }),
                log@ == old(log)@ + use_fold_events(*old(w), old(w).use_queue@, k as int),
            decreases qlen - k,
        {
            let ghost pre = *w;
            let req = w.use_queue[k];
            proof {
                assert(old(w).queues_ok());
                assert((old(w).use_queue@[k as int]).user < old(w).n());
                assert((old(w).use_queue@[k as int]).item < old(w).n());
            }
            Self::apply_use_request(w, log, req);
            proof {
                lemma_use_request_same(
                    pre,
                    *old(w),
                    pre.stats@,
                    views_of(pre.pending_damage@),
                    pre.confusion@,
                    pre.pending_deletes@,
                    req,
                );
                assert(log@ =~= old(log)@ + use_fold_events(
                    *old(w),
                    old(w).use_queue@,
                    k + 1 as int,
                ));
            }
            k = k + 1;
        }
        let ghost done = *w;
        w.use_queue.clear();
        proof {
            assert forall|ii: int| 0 <= ii < w.n() implies #[trigger] w.entity_ok(ii) by {
                assert(done.entity_ok(ii));
            }
        }
    }
}

} // verus!
