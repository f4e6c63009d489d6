use vstd::prelude::*;
use crate::components::{amounts, amounts_after, CombatStats, Name, SufferDamage, WantsToMelee};

verus! {

/// Resolves the melee attacks entities want to make.
pub struct MeleeCombatSystem {}

/// What came of one attack, for the log.
#[derive(Clone, Copy, Debug, PartialEq, Eq, Structural)]
pub enum MeleeEvent {
    /// The target's defense stopped the whole blow.
    Blocked { attacker: usize, target: usize },
    /// The target takes `damage`, which is positive.
    Hit { attacker: usize, target: usize, damage: i32 },
}

/// Whether entity `i` wants to attack and has a name and combat figures.
pub open spec fn attacks(
    wants: Seq<Option<WantsToMelee>>,
    names: Seq<Option<Name>>,
    stats: Seq<Option<CombatStats>>,
    i: int,
) -> bool {
    &&& 0 <= i < wants.len()
    &&& i < names.len()
    &&& i < stats.len()
    &&& wants[i] is Some
    &&& names[i] is Some
    &&& stats[i] is Some
}

/// The damage a blow of `attacker` does to `target`: power less defense, never below 0.
pub open spec fn blow(attacker: CombatStats, target: CombatStats) -> int {
    if attacker.power - target.defense > 0 {
        attacker.power - target.defense
    } else {
        0
    }
}

/// What comes of the attack of entity `i`: nothing unless it attacks, is alive, and its
/// target is alive; then a hit of the blow's damage, or a block when that is 0.
pub open spec fn melee_outcome(
    wants: Seq<Option<WantsToMelee>>,
    names: Seq<Option<Name>>,
    stats: Seq<Option<CombatStats>>,
    i: int,
) -> Option<MeleeEvent> {
    if attacks(wants, names, stats, i) && stats[i].unwrap().hp > 0 {
        let t = wants[i].unwrap().target;
        let ts = stats[t as int].unwrap();
        if ts.hp > 0 {
            let d = blow(stats[i].unwrap(), ts);
            if d == 0 {
                Some(MeleeEvent::Blocked { attacker: i as usize, target: t })
            } else {
                Some(MeleeEvent::Hit { attacker: i as usize, target: t, damage: d as i32 })
            }
        } else {
            None
        }
    } else {
        None
    }
}

/// The outcomes of the attacks of the first `n` entities, in entity order.
pub open spec fn melee_events(
    wants: Seq<Option<WantsToMelee>>,
    names: Seq<Option<Name>>,
    stats: Seq<Option<CombatStats>>,
    n: nat,
) -> Seq<MeleeEvent>
    decreases n,
{
    if n == 0 {
        Seq::empty()
    } else {
        let before = melee_events(wants, names, stats, (n - 1) as nat);
        match melee_outcome(wants, names, stats, n - 1) {
            Some(e) => before.push(e),
            None => before,
        }
    }
}

/// The damage that the hits of the first `n` entities do to entity `t`, in entity order.
pub open spec fn blows_on(
    wants: Seq<Option<WantsToMelee>>,
    names: Seq<Option<Name>>,
    stats: Seq<Option<CombatStats>>,
    t: int,
    n: nat,
) -> Seq<i32>
    decreases n,
{
    if n == 0 {
        Seq::empty()
    } else {
        let before = blows_on(wants, names, stats, t, (n - 1) as nat);
        match melee_outcome(wants, names, stats, n - 1) {
            Some(MeleeEvent::Hit { attacker: _, target, damage }) => if target == t {
                before.push(damage)
            } else {
                before
            },
            _ => before,
        }
    }
}

/// The attack of entity `i` can be resolved: a living attacker aims at an entity with combat
/// figures; a living target has a name, the blow fits in `i32`, and a target that takes
/// damage has room for it in the damage store.
pub open spec fn attack_resolvable(
    wants: Seq<Option<WantsToMelee>>,
    names: Seq<Option<Name>>,
    stats: Seq<Option<CombatStats>>,
    damage_len: nat,
    i: int,
) -> bool {
    attacks(wants, names, stats, i) && stats[i].unwrap().hp > 0 ==> {
        let t = wants[i].unwrap().target as int;
        &&& t < stats.len()
        &&& stats[t] is Some
        &&& stats[t].unwrap().hp > 0 ==> {
            &&& t < names.len()
            &&& names[t] is Some
            &&& i32::MIN <= stats[i].unwrap().power - stats[t].unwrap().defense <= i32::MAX
            &&& t < damage_len
        }
    }
}

/// The attacker of an outcome.
pub open spec fn attacker_of(e: MeleeEvent) -> usize {
    match e {
        MeleeEvent::Hit { attacker, target: _, damage: _ } => attacker,
        MeleeEvent::Blocked { attacker, target: _ } => attacker,
    }
}

impl MeleeCombatSystem {
    /// Resolves, in entity order, the attack of every living entity that wants to attack, has a
    /// name and has combat figures: against a living target the blow does power less defense,
    /// at least 0; a positive blow is added to the target's pending damage. The outcomes are
    /// returned for the log, and every attack request is then removed.
    pub fn run(
        &mut self,
        wants_melee: &mut Vec<Option<WantsToMelee>>,
        names: &Vec<Option<Name>>,
        combat_stats: &Vec<Option<CombatStats>>,
        inflict_damage: &mut Vec<Option<SufferDamage>>,
    ) -> (events: Vec<MeleeEvent>)
        requires
            forall|i: int|
                0 <= i < old(wants_melee).len() ==> #[trigger] attack_resolvable(
                    old(wants_melee)@,
                    names@,
                    combat_stats@,
                    old(inflict_damage).len() as nat,
                    i,
                ),
        ensures
            events@ == melee_events(old(wants_melee)@, names@, combat_stats@, old(wants_melee).len() as nat),
            final(inflict_damage).len() == old(inflict_damage).len(),
            forall|t: int|
                0 <= t < old(inflict_damage).len() ==> #[trigger] amounts(final(inflict_damage)@[t])
                    == amounts_after(
                    amounts(old(inflict_damage)@[t]),
                    blows_on(old(wants_melee)@, names@, combat_stats@, t, old(wants_melee).len() as nat),
                ),
            forall|t: int|
                0 <= t < old(inflict_damage).len() ==> #[trigger] amounts(final(inflict_damage)@[t])
                    == amounts_after(amounts(old(inflict_damage)@[t]), events@.filter(
                    |e: MeleeEvent| e matches MeleeEvent::Hit { attacker: _, target, damage: _ } && target == t,
                ).map_values(
                    |e: MeleeEvent|
                        match e {
                            MeleeEvent::Hit { attacker: _, target: _, damage } => damage,
                            MeleeEvent::Blocked { .. } => 0i32,
                        },
                )),
            final(wants_melee).len() == old(wants_melee).len(),
            forall|i: int| 0 <= i < old(wants_melee).len() ==> #[trigger] final(wants_melee)@[i] is None,
    {
        let ghost w0 = wants_melee@;
        let ghost d0 = inflict_damage@;
        let mut events: Vec<MeleeEvent> = Vec::new();
        let mut i: usize = 0;
        while i < wants_melee.len()
            invariant
                0 <= i <= wants_melee.len(),
                wants_melee@ == w0,
                inflict_damage.len() == d0.len(),
                forall|j: int|
                    0 <= j < w0.len() ==> #[trigger] attack_resolvable(w0, names@, combat_stats@, d0.len() as nat, j),
                events@ == melee_events(w0, names@, combat_stats@, i as nat),
                forall|t: int|
                    0 <= t < d0.len() ==> #[trigger] amounts(inflict_damage@[t]) == amounts_after(
                        amounts(d0[t]),
                        blows_on(w0, names@, combat_stats@, t, i as nat),
                    ),
            decreases wants_melee.len() - i,
        {
            proof {
                assert(attack_resolvable(w0, names@, combat_stats@, d0.len() as nat, i as int));
            }
            let ghost before = inflict_damage@;
            if i < names.len() && i < combat_stats.len() {
                match (&wants_melee[i], &names[i], &combat_stats[i]) {
                    (Some(wants), Some(_name), Some(stats)) => {
                        if stats.hp > 0 {
                            let target = wants.target;
                            match &combat_stats[target] {
                                Some(target_stats) => {
                                    if target_stats.hp > 0 {
                                        let diff = stats.power - target_stats.defense;
                                        let damage = if diff > 0 { diff } else { 0 };
                                        if damage == 0 {
                                            events.push(MeleeEvent::Blocked { attacker: i, target });
                                        } else {
                                            events.push(MeleeEvent::Hit { attacker: i, target, damage });
                                            SufferDamage::new_damage(inflict_damage, target, damage);
                                        }
                                    }
                                },
                                None => {},
                            }
                        }
                    },
                    _ => {},
                }
            }
            proof {
                assert forall|t: int| 0 <= t < d0.len() implies #[trigger] amounts(inflict_damage@[t])
                    == amounts_after(amounts(d0[t]), blows_on(w0, names@, combat_stats@, t, (i + 1) as nat)) by {
                    assert(amounts(before[t]) == amounts_after(
                        amounts(d0[t]),
                        blows_on(w0, names@, combat_stats@, t, i as nat),
                    ));
                }
            }
            i = i + 1;
        }
        let mut k: usize = 0;
        while k < wants_melee.len()
            invariant
                0 <= k <= wants_melee.len(),
                wants_melee.len() == w0.len(),
                forall|j: int| 0 <= j < k ==> #[trigger] wants_melee@[j] is None,
            decreases wants_melee.len() - k,
        {
            wants_melee.set(k, None);
            k = k + 1;
        }
        proof {
            assert forall|t: int| 0 <= t < d0.len() implies blows_on(w0, names@, combat_stats@, t, w0.len() as nat)
                == events@.filter(
                    |e: MeleeEvent| e matches MeleeEvent::Hit { attacker: _, target, damage: _ } && target == t,
                ).map_values(
                    |e: MeleeEvent|
                        match e {
                            MeleeEvent::Hit { attacker: _, target: _, damage } => damage,
                            MeleeEvent::Blocked { .. } => 0i32,
                        },
                ) by {
                lemma_blows_are_hits(w0, names@, combat_stats@, t, w0.len() as nat);
            }
        }
        events
    }
}

/// Melee never heals: every blow a target takes is positive.
pub proof fn lemma_blows_positive(
    wants: Seq<Option<WantsToMelee>>,
    names: Seq<Option<Name>>,
    stats: Seq<Option<CombatStats>>,
    t: int,
    n: nat,
    damage_len: nat,
)
    requires
        n <= wants.len(),
        wants.len() <= usize::MAX,
        forall|i: int| 0 <= i < n ==> #[trigger] attack_resolvable(wants, names, stats, damage_len, i),
    ensures
        forall|k: int| 0 <= k < blows_on(wants, names, stats, t, n).len() ==> #[trigger] blows_on(wants, names, stats, t, n)[k] > 0,
    decreases n,
{
    if n > 0 {
        lemma_blows_positive(wants, names, stats, t, (n - 1) as nat, damage_len);
        assert(attack_resolvable(wants, names, stats, damage_len, n - 1));
        let before = blows_on(wants, names, stats, t, (n - 1) as nat);
        let all = blows_on(wants, names, stats, t, n);
        assert forall|k: int| 0 <= k < all.len() implies #[trigger] all[k] > 0 by {
            if k < before.len() {
                assert(all[k] == before[k]);
            }
        }
    }
}

/// Every hit that is logged does the attacker's power less the target's defense, which is
/// positive; every block comes from a power no greater than the defense; each outcome is that of a
/// living attacker against the living target it asked to attack.
pub proof fn lemma_events_well_formed(
    wants: Seq<Option<WantsToMelee>>,
    names: Seq<Option<Name>>,
    stats: Seq<Option<CombatStats>>,
    n: nat,
    damage_len: nat,
)
    requires
        n <= wants.len(),
        wants.len() <= usize::MAX,
        forall|i: int| 0 <= i < n ==> #[trigger] attack_resolvable(wants, names, stats, damage_len, i),
    ensures
        forall|k: int|
            0 <= k < melee_events(wants, names, stats, n).len() ==> match #[trigger] melee_events(wants, names, stats, n)[k] {
                MeleeEvent::Hit { attacker, target, damage } => {
                    &&& damage > 0
                    &&& damage == stats[attacker as int].unwrap().power - stats[target as int].unwrap().defense
                    &&& wants[attacker as int].unwrap().target == target
                    &&& stats[attacker as int].unwrap().hp > 0
                    &&& stats[target as int].unwrap().hp > 0
                },
                MeleeEvent::Blocked { attacker, target } => {
                    &&& stats[attacker as int].unwrap().power - stats[target as int].unwrap().defense <= 0
                    &&& wants[attacker as int].unwrap().target == target
                    &&& stats[attacker as int].unwrap().hp > 0
                    &&& stats[target as int].unwrap().hp > 0
                },
            },
    decreases n,
{
    if n > 0 {
        lemma_events_well_formed(wants, names, stats, (n - 1) as nat, damage_len);
        assert(attack_resolvable(wants, names, stats, damage_len, n - 1));
        let before = melee_events(wants, names, stats, (n - 1) as nat);
        let all = melee_events(wants, names, stats, n);
        assert forall|k: int| 0 <= k < all.len() implies match #[trigger] all[k] {
            MeleeEvent::Hit { attacker, target, damage } => {
                &&& damage > 0
                &&& damage == stats[attacker as int].unwrap().power - stats[target as int].unwrap().defense
                &&& wants[attacker as int].unwrap().target == target
                &&& stats[attacker as int].unwrap().hp > 0
                &&& stats[target as int].unwrap().hp > 0
            },
            MeleeEvent::Blocked { attacker, target } => {
                &&& stats[attacker as int].unwrap().power - stats[target as int].unwrap().defense <= 0
                &&& wants[attacker as int].unwrap().target == target
                &&& stats[attacker as int].unwrap().hp > 0
                &&& stats[target as int].unwrap().hp > 0
            },
        } by {
            if k < before.len() {
                assert(all[k] == before[k]);
            }
        }
    }
}

/// Once every attack request has been removed, running the melee system again resolves no
/// attack and deals no damage.
pub proof fn lemma_no_requests_no_events(
    wants: Seq<Option<WantsToMelee>>,
    names: Seq<Option<Name>>,
    stats: Seq<Option<CombatStats>>,
    t: int,
    n: nat,
)
    requires
        forall|i: int| 0 <= i < wants.len() ==> #[trigger] wants[i] is None,
    ensures
        melee_events(wants, names, stats, n) == Seq::<MeleeEvent>::empty(),
        blows_on(wants, names, stats, t, n) == Seq::<i32>::empty(),
    decreases n,
{
    if n > 0 {
        lemma_no_requests_no_events(wants, names, stats, t, (n - 1) as nat);
        assert(melee_outcome(wants, names, stats, n - 1) is None);
    }
}

/// The blows added to an entity's pending damage are exactly the damages of the hits on it among
/// the outcomes, in order: every hit on it counts, however many there are.
pub proof fn lemma_blows_are_hits(
    wants: Seq<Option<WantsToMelee>>,
    names: Seq<Option<Name>>,
    stats: Seq<Option<CombatStats>>,
    t: int,
    n: nat,
)
    ensures
        blows_on(wants, names, stats, t, n) == melee_events(wants, names, stats, n).filter(
                    |e: MeleeEvent| e matches MeleeEvent::Hit { attacker: _, target, damage: _ } && target == t,
                ).map_values(
                    |e: MeleeEvent|
                        match e {
                            MeleeEvent::Hit { attacker: _, target: _, damage } => damage,
                            MeleeEvent::Blocked { .. } => 0i32,
                        },
                ),
    decreases n,
{
    reveal(Seq::filter);
    if n > 0 {
        lemma_blows_are_hits(wants, names, stats, t, (n - 1) as nat);
        let before = melee_events(wants, names, stats, (n - 1) as nat);
        let pred = |e: MeleeEvent| e matches MeleeEvent::Hit { attacker: _, target, damage: _ } && target == t;
        let f = |e: MeleeEvent|
            match e {
                MeleeEvent::Hit { attacker: _, target: _, damage } => damage,
                MeleeEvent::Blocked { .. } => 0i32,
            };
        match melee_outcome(wants, names, stats, n - 1) {
            Some(e) => {
                let all = before.push(e);
                assert(all.drop_last() =~= before);
                assert(all.last() == e);
                if pred(e) {
                    assert(all.filter(pred) == before.filter(pred).push(e));
                    assert(before.filter(pred).push(e).map_values(f) =~= before.filter(pred).map_values(f).push(f(e)));
                } else {
                    assert(all.filter(pred) == before.filter(pred));
                }
            },
            None => {},
        }
    }
}

/// Which entities attack: an outcome is logged for entity `i` exactly when it wants to attack,
/// has a name and combat figures, has hit points left, and its target has hit points left; the
/// outcomes come in increasing order of attacker, one per attacker.
pub proof fn lemma_events_from_living_attackers(
    wants: Seq<Option<WantsToMelee>>,
    names: Seq<Option<Name>>,
    stats: Seq<Option<CombatStats>>,
    n: nat,
)
    requires
        n <= wants.len(),
        wants.len() <= usize::MAX,
    ensures
        forall|i: int|
            0 <= i < n ==> ((exists|k: int|
                0 <= k < melee_events(wants, names, stats, n).len() && attacker_of(#[trigger] melee_events(wants, names, stats, n)[k]) == i) <==> {
                &&& i < names.len()
                &&& i < stats.len()
                &&& wants[i] is Some
                &&& names[i] is Some
                &&& stats[i] is Some
                &&& stats[i].unwrap().hp > 0
                &&& stats[wants[i].unwrap().target as int].unwrap().hp > 0
            }),
        forall|k: int, l: int|
            0 <= k < l < melee_events(wants, names, stats, n).len() ==> attacker_of(#[trigger] melee_events(wants, names, stats, n)[k]) < attacker_of(#[trigger] melee_events(wants, names, stats, n)[l]),
        forall|k: int|
            0 <= k < melee_events(wants, names, stats, n).len() ==> attacker_of(#[trigger] melee_events(wants, names, stats, n)[k]) < n,
    decreases n,
{
    if n > 0 {
        lemma_events_from_living_attackers(wants, names, stats, (n - 1) as nat);
        let before = melee_events(wants, names, stats, (n - 1) as nat);
        let all = melee_events(wants, names, stats, n);
        let last = n - 1;
        match melee_outcome(wants, names, stats, last) {
            Some(e) => {
                assert(attacker_of(e) == last);
                assert(all == before.push(e));
                assert forall|k: int| 0 <= k < before.len() implies #[trigger] all[k] == before[k] by {}
            },
            None => {
                assert(all == before);
            },
        }
        assert forall|i: int| 0 <= i < n implies ((exists|k: int|
            0 <= k < all.len() && attacker_of(#[trigger] all[k]) == i) <==> {
            &&& i < names.len()
            &&& i < stats.len()
            &&& wants[i] is Some
            &&& names[i] is Some
            &&& stats[i] is Some
            &&& stats[i].unwrap().hp > 0
            &&& stats[wants[i].unwrap().target as int].unwrap().hp > 0
        }) by {
            if i < last {
                if exists|k: int| 0 <= k < all.len() && attacker_of(#[trigger] all[k]) == i {
                    let k = choose|k: int| 0 <= k < all.len() && attacker_of(#[trigger] all[k]) == i;
                    if k < before.len() {
                        assert(all[k] == before[k]);
                    } else {
                        assert(attacker_of(all[k]) == last);
                    }
                }
                if exists|k: int| 0 <= k < before.len() && attacker_of(#[trigger] before[k]) == i {
                    let k = choose|k: int| 0 <= k < before.len() && attacker_of(#[trigger] before[k]) == i;
                    assert(all[k] == before[k]);
                }
            } else {
                if melee_outcome(wants, names, stats, last) is Some {
                    assert(attacker_of(all[all.len() - 1]) == i);
                } else {
                    if exists|k: int| 0 <= k < all.len() && attacker_of(#[trigger] all[k]) == i {
                        let k = choose|k: int| 0 <= k < all.len() && attacker_of(#[trigger] all[k]) == i;
                        assert(all[k] == before[k]);
                    }
                }
            }
        }
        assert forall|k: int, l: int| 0 <= k < l < all.len() implies attacker_of(#[trigger] all[k]) < attacker_of(#[trigger] all[l]) by {
            assert(all[k] == before[k]);
            if l < before.len() {
                assert(all[l] == before[l]);
            }
        }
        assert forall|k: int| 0 <= k < all.len() implies attacker_of(#[trigger] all[k]) < n by {
            if k < before.len() {
                assert(all[k] == before[k]);
            }
        }
    }
}

} // verus!
