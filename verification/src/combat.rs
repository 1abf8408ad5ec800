//! Combat resolution, in two stages inside one turn: every melee intent
//! queues damage on its target, then every queued amount is applied to hit
//! points, clamped at zero.  Dead non-player entities are scheduled for the
//! end-of-turn commit; a dead player only raises a signal.

use vstd::prelude::*;

use crate::world::CombatStats;
use crate::world::World;

verus! {

pub struct MeleeCombatSystem {}

pub struct DamageSystem {}

/// The damage one melee swing queues: attacker power minus defender
/// defense, never less than 1.
pub open spec fn spec_melee_damage(power: int, defense: int) -> int {
    if power - defense < 1 {
        1
    } else {
        power - defense
    }
}

/// Attacker `a` lands a swing on `t` this turn: it is alive, its intent
/// names `t`, and both sides have combat stats (an intent whose parties
/// miss a component is dropped as stale).
pub open spec fn melee_attacks(w: World, a: int, t: int) -> bool {
    &&& w.alive@[a]
    &&& w.melee_targets@[a] is Some
    &&& w.melee_targets@[a]->0 as int == t
    &&& w.stats@[a] is Some
    &&& w.alive@[t]
    &&& w.stats@[t] is Some
}

/// The amounts queued on `t` by attackers `0..e`, in attacker id order.
pub open spec fn melee_additions(w: World, t: int, e: int) -> Seq<i32>
    decreases e,
{
    if e <= 0 {
        Seq::empty()
    } else if melee_attacks(w, e - 1, t) {
        melee_additions(w, t, e - 1).push(
            spec_melee_damage(
                w.stats@[e - 1]->0.power as int,
                w.stats@[t]->0.defense as int,
            ) as i32,
        )
    } else {
        melee_additions(w, t, e - 1)
    }
}


/// The melee stage as a relation between the world before and after:
/// exactly the contract of [`MeleeCombatSystem::run`].
pub open spec fn spec_melee_run(pre: World, post: World) -> bool {
    &&& post.wf()
    &&& forall|t: int|
        0 <= t < pre.n() ==> (#[trigger] post.pending_damage@[t])@ == pre.pending_damage@[t]@
            + melee_additions(pre, t, pre.n())
    &&& forall|a: int| 0 <= a < pre.n() ==> #[trigger] post.melee_targets@[a] is None
    &&& post == (World {
        melee_targets: post.melee_targets,
        pending_damage: post.pending_damage,
        ..pre
    })
}

/// The damage stage as a relation between the world before and after:
/// exactly the contract of [`DamageSystem::run`].
pub open spec fn spec_damage_run(pre: World, post: World) -> bool {
    &&& post.wf()
    &&& forall|e: int|
        0 <= e < pre.n() ==> #[trigger] post.stats@[e] == (if pre.stats@[e] is Some {
            Some(
                CombatStats {
                    hp: clamp0(pre.stats@[e]->0.hp - sum_damage(pre.pending_damage@[e]@)) as i32,
                    ..pre.stats@[e]->0
                },
            )
        } else {
            Option::<CombatStats>::None
        })
    &&& forall|e: int| 0 <= e < pre.n() ==> (#[trigger] post.pending_damage@[e])@.len() == 0
    &&& post == (World { stats: post.stats, pending_damage: post.pending_damage, ..pre })
}

/// The death sweep as a relation: exactly the contract of
/// [`delete_the_dead`].
pub open spec fn spec_dead_sweep(pre: World, post: World, player_dead: bool) -> bool {
    &&& post.wf()
    &&& player_dead == (pre.stats@[pre.player as int] is Some && pre.stats@[pre.player as int]->0.hp
        == 0)
    &&& post.pending_deletes@ == pre.pending_deletes@ + dead_list(pre, pre.n())
    &&& post == (World { pending_deletes: post.pending_deletes, ..pre })
}

impl MeleeCombatSystem {
    /// Resolve every pending melee intent: append the swing's damage to the
    /// target's pending list, then clear all intents.
    pub fn run(w: &mut World)
        requires
            old(w).wf(),
        ensures
            final(w).wf(),
            forall|t: int|
                0 <= t < old(w).n() ==> (#[trigger] final(w).pending_damage@[t])@ == old(
                    w,
                ).pending_damage@[t]@ + melee_additions(*old(w), t, old(w).n()),
            forall|a: int| 0 <= a < old(w).n() ==> #[trigger] final(w).melee_targets@[a] is None,
            *final(w) == (World {
                melee_targets: final(w).melee_targets,
                pending_damage: final(w).pending_damage,
                ..*old(w)
            }),
    {
        let n = w.alive.len();
        let mut a: usize = 0;
        while a < n
            invariant
                old(w).wf(),
                n == old(w).n(),
                a <= n,
                w.stores_sized(),
                forall|t: int|
                    0 <= t < n ==> (#[trigger] w.pending_damage@[t])@ == old(
                        w,
                    ).pending_damage@[t]@ + melee_additions(*old(w), t, a as int),
                *w == (World { pending_damage: w.pending_damage, ..*old(w) }),
            decreases n - a,
        {
            let ghost pre = *w;
            if w.alive[a] {
                match w.melee_targets[a] {
                    Some(t) => {
                        proof {
                            assert(old(w).entity_ok(a as int));
                        }
                        match (w.stats[a], w.stats[t]) {
                            (Some(ast), Some(tst)) => {
                                if w.alive[t] {
                                    proof {
                                        assert(old(w).entity_ok(t as int));
                                    }
                                    let raw = ast.power - tst.defense;
                                    let dmg: i32 = if raw < 1 {
                                        1
                                    } else {
                                        raw
                                    };
                                    w.pending_damage[t].push(dmg);
                                }
                            },
                            _ => {},
                        }
                    },
                    None => {},
                }
            }
            proof {
                assert forall|t: int|
                    0 <= t < n implies (#[trigger] w.pending_damage@[t])@ == old(
                    w,
                ).pending_damage@[t]@ + melee_additions(*old(w), t, a + 1 as int) by {
                    assert(pre.pending_damage@[t]@ == old(w).pending_damage@[t]@
                        + melee_additions(*old(w), t, a as int));
                    if melee_attacks(*old(w), a as int, t) {
                        let d = spec_melee_damage(
                            old(w).stats@[a as int]->0.power as int,
                            old(w).stats@[t]->0.defense as int,
                        ) as i32;
                        assert(melee_additions(*old(w), t, a + 1 as int) == melee_additions(
                            *old(w),
                            t,
                            a as int,
                        ).push(d));
                        assert(w.pending_damage@[t]@ =~= old(w).pending_damage@[t]@
                            + melee_additions(*old(w), t, a + 1 as int));
                    } else {
                        assert(melee_additions(*old(w), t, a + 1 as int) == melee_additions(
                            *old(w),
                            t,
                            a as int,
                        ));
                    }
                }
            }
            a = a + 1;
        }
        let mut c: usize = 0;
        while c < n
            invariant
                old(w).wf(),
                n == old(w).n(),
                c <= n,
                w.stores_sized(),
                forall|t: int|
                    0 <= t < n ==> (#[trigger] w.pending_damage@[t])@ == old(
                        w,
                    ).pending_damage@[t]@ + melee_additions(*old(w), t, n as int),
                forall|i: int| 0 <= i < c ==> #[trigger] w.melee_targets@[i] is None,
                *w == (World {
                    melee_targets: w.melee_targets,
                    pending_damage: w.pending_damage,
                    ..*old(w)
                }),
            decreases n - c,
        {
            w.melee_targets[c] = None;
            c = c + 1;
        }
        proof {
            assert forall|ee: int| 0 <= ee < w.n() implies #[trigger] w.entity_ok(ee) by {
                assert(old(w).entity_ok(ee));
                lemma_melee_additions_ok(*old(w), ee, old(w).n());
                lemma_damage_concat_ok(
                    old(w).pending_damage@[ee]@,
                    melee_additions(*old(w), ee, old(w).n()),
                );
            }
        }
    }
}

proof fn lemma_damage_concat_ok(a: Seq<i32>, b: Seq<i32>)
    requires
        crate::world::damage_list_ok(a),
        crate::world::damage_list_ok(b),
    ensures
        crate::world::damage_list_ok(a + b),
{
    assert forall|k: int|
        0 <= k < (a + b).len() implies 0 <= #[trigger] (a + b)[k] <= crate::world::STAT_MAX by {
        if k < a.len() {
            assert((a + b)[k] == a[k]);
        } else {
            assert((a + b)[k] == b[k - a.len()]);
        }
    }
}

proof fn lemma_melee_additions_ok(w: World, t: int, e: int)
    requires
        w.wf(),
        0 <= t < w.n(),
        0 <= e <= w.n(),
    ensures
        crate::world::damage_list_ok(melee_additions(w, t, e)),
    decreases e,
{
    if e > 0 {
        lemma_melee_additions_ok(w, t, e - 1);
        if melee_attacks(w, e - 1, t) {
            assert(w.entity_ok(e - 1));
            assert(w.entity_ok(t));
        }
    }
}

/// Sum of a damage list.
pub open spec fn sum_damage(l: Seq<i32>) -> int
    decreases l.len(),
{
    if l.len() == 0 {
        0
    } else {
        l[0] + sum_damage(l.drop_first())
    }
}

proof fn lemma_sum_push(l: Seq<i32>, x: i32)
    ensures
        sum_damage(l.push(x)) == sum_damage(l) + x,
    decreases l.len(),
{
    if l.len() == 0 {
        assert(l.push(x).len() == 1);
        assert(l.push(x)[0] == x);
        assert(l.push(x).drop_first() =~= Seq::<i32>::empty());
        assert(sum_damage(l.push(x).drop_first()) == 0);
        assert(sum_damage(l) == 0);
    } else {
        assert(l.push(x).drop_first() =~= l.drop_first().push(x));
        lemma_sum_push(l.drop_first(), x);
    }
}

pub open spec fn clamp0(h: int) -> int {
    if h < 0 {
        0
    } else {
        h
    }
}

impl DamageSystem {
    /// Apply every queued damage amount: each entity with combat stats ends
    /// at max(0, hp - sum of its queued amounts); every pending list is
    /// fully drained.
    pub fn run(w: &mut World)
        requires
            old(w).wf(),
        ensures
            final(w).wf(),
            forall|e: int|
                0 <= e < old(w).n() ==> #[trigger] final(w).stats@[e] == (
                if old(w).stats@[e] is Some {
                    Some(
                        CombatStats {
                            hp: clamp0(
                                old(w).stats@[e]->0.hp - sum_damage(old(w).pending_damage@[e]@),
                            ) as i32,
                            ..old(w).stats@[e]->0
                        },
                    )
                } else {
                    Option::<CombatStats>::None
                }),
            forall|e: int|
                0 <= e < old(w).n() ==> (#[trigger] final(w).pending_damage@[e])@.len() == 0,
            *final(w) == (World {
                stats: final(w).stats,
                pending_damage: final(w).pending_damage,
                ..*old(w)
            }),
    {
        let n = w.alive.len();
        let mut e: usize = 0;
        while e < n
            invariant
                old(w).wf(),
                n == old(w).n(),
                e <= n,
                w.stores_sized(),
                forall|i: int|
                    0 <= i < e ==> #[trigger] w.stats@[i] == (if old(w).stats@[i] is Some {
                        Some(
                            CombatStats {
                                hp: clamp0(
                                    old(w).stats@[i]->0.hp - sum_damage(
                                        old(w).pending_damage@[i]@,
                                    ),
                                ) as i32,
                                ..old(w).stats@[i]->0
                            },
                        )
                    } else {
                        Option::<CombatStats>::None
                    }),
                forall|i: int| 0 <= i < e ==> (#[trigger] w.pending_damage@[i])@.len() == 0,
                forall|i: int| e <= i < n ==> #[trigger] w.stats@[i] == old(w).stats@[i],
                forall|i: int|
                    e <= i < n ==> #[trigger] w.pending_damage@[i] == old(w).pending_damage@[i],
                *w == (World {
                    stats: w.stats,
                    pending_damage: w.pending_damage,
                    ..*old(w)
                }),
            decreases n - e,
        {
            proof {
                assert(old(w).entity_ok(e as int));
            }
            match w.stats[e] {
                Some(st) => {
                    let mut hp = st.hp;
                    let len = w.pending_damage[e].len();
                    let mut j: usize = 0;
                    while j < len
                        invariant
                            old(w).wf(),
                            e < n,
                            n == old(w).n(),
                            w.n() == n,
                            w.stores_sized(),
                            w.pending_damage@[e as int] == old(w).pending_damage@[e as int],
                            len == old(w).pending_damage@[e as int]@.len(),
                            j <= len,
                            old(w).stats@[e as int] is Some,
                            st == old(w).stats@[e as int]->0,
                            hp == clamp0(
                                st.hp - sum_damage(
                                    old(w).pending_damage@[e as int]@.take(j as int),
                                ),
                            ),
                            0 <= hp <= st.hp,
                        decreases len - j,
                    {
                        proof {
                            assert(old(w).entity_ok(e as int));
                            assert(e < w.pending_damage@.len());
                            assert(w.pending_damage@[e as int]@.len() == len);
                        }
                        let amount = w.pending_damage[e][j];
                        proof {
                            assert(crate::world::damage_list_ok(
                                old(w).pending_damage@[e as int]@,
                            ));
                            assert(0 <= old(w).pending_damage@[e as int]@[j as int] <= crate::world::STAT_MAX);
                            let pfx = old(w).pending_damage@[e as int]@.take(j as int);
                            assert(old(w).pending_damage@[e as int]@.take(j + 1 as int) =~= pfx.push(
                                amount,
                            ));
                            lemma_sum_push(pfx, amount);
                        }
                        if amount >= hp {
                            hp = 0;
                        } else {
                            hp = hp - amount;
                        }
                        j = j + 1;
                    }
                    proof {
                        assert(old(w).pending_damage@[e as int]@.take(len as int) =~= old(
                            w,
                        ).pending_damage@[e as int]@);
                    }
                    w.stats[e] = Some(CombatStats { hp, ..st });
                    w.pending_damage[e] = Vec::new();
                },
                None => {
                    w.pending_damage[e] = Vec::new();
                },
            }
            e = e + 1;
        }
        proof {
            assert forall|ee: int| 0 <= ee < w.n() implies #[trigger] w.entity_ok(ee) by {
                assert(old(w).entity_ok(ee));
                lemma_sum_nonneg(old(w).pending_damage@[ee]@);
            }
        }
    }
}

proof fn lemma_sum_nonneg(l: Seq<i32>)
    requires
        crate::world::damage_list_ok(l),
    ensures
        0 <= sum_damage(l),
    decreases l.len(),
{
    if l.len() > 0 {
        assert forall|k: int|
            0 <= k < l.drop_first().len() implies 0 <= #[trigger] l.drop_first()[k]
            <= crate::world::STAT_MAX by {
            assert(l.drop_first()[k] == l[k + 1]);
        }
        lemma_sum_nonneg(l.drop_first());
    }
}

/// Entity `e` dies this turn: alive with stats at zero hit points, and not
/// the player.
pub open spec fn dead_now(w: World, e: int) -> bool {
    &&& w.alive@[e]
    &&& w.stats@[e] is Some
    &&& w.stats@[e]->0.hp == 0
    &&& e != w.player as int
}

/// The dead entities among `0..e`, in id order.
pub open spec fn dead_list(w: World, e: int) -> Seq<usize>
    decreases e,
{
    if e <= 0 {
        Seq::empty()
    } else if dead_now(w, e - 1) {
        dead_list(w, e - 1).push((e - 1) as usize)
    } else {
        dead_list(w, e - 1)
    }
}

/// Schedule every dead non-player entity for the end-of-turn commit and
/// report whether the player has fallen; a dead player is never scheduled.
pub fn delete_the_dead(w: &mut World) -> (player_dead: bool)
    requires
        old(w).wf(),
    ensures
        final(w).wf(),
        player_dead == (old(w).stats@[old(w).player as int] is Some
            && old(w).stats@[old(w).player as int]->0.hp == 0),
        final(w).pending_deletes@ == old(w).pending_deletes@ + dead_list(*old(w), old(w).n()),
        *final(w) == (World { pending_deletes: final(w).pending_deletes, ..*old(w) }),
{
    let n = w.alive.len();
    let mut e: usize = 0;
    while e < n
        invariant
            old(w).wf(),
            n == old(w).n(),
            e <= n,
            w.pending_deletes@ == old(w).pending_deletes@ + dead_list(*old(w), e as int),
            *w == (World { pending_deletes: w.pending_deletes, ..*old(w) }),
        decreases n - e,
    {
        if w.alive[e] {
            match w.stats[e] {
                Some(st) => {
                    if st.hp == 0 && e != w.player {
                        w.pending_deletes.push(e);
                        proof {
                            assert(w.pending_deletes@ =~= old(w).pending_deletes@ + dead_list(
                                *old(w),
                                e + 1 as int,
                            ));
                        }
                    }
                },
                None => {},
            }
        }
        e = e + 1;
    }
    let player_dead = match w.stats[w.player] {
        Some(st) => st.hp == 0,
        None => false,
    };
    proof {
        assert forall|ee: int| 0 <= ee < w.n() implies #[trigger] w.entity_ok(ee) by {
            assert(old(w).entity_ok(ee));
        }
        lemma_dead_list_ok(*old(w), old(w).n());
    }
    player_dead
}

proof fn lemma_dead_list_ok(w: World, e: int)
    requires
        0 <= e <= w.n(),
    ensures
        crate::world::id_list_ok(dead_list(w, e), w.n()),
    decreases e,
{
    if e > 0 {
        lemma_dead_list_ok(w, e - 1);
    }
}

} // verus!
