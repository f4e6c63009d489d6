use vstd::prelude::*;
use crate::components::{strings_view, CombatStats, GameLog, Name, Player, SufferDamage};

verus! {

/// Applies the damage entities have suffered to their hit points.
pub struct DamageSystem {}

/// The sum of `s`.
pub open spec fn seq_sum(s: Seq<i32>) -> int
    decreases s.len(),
{
    if s.len() == 0 {
        0
    } else {
        seq_sum(s.drop_last()) + s.last()
    }
}

/// Every partial sum of `s`, from the left, fits in `i32`: summing it in `i32` does not
/// overflow.
pub open spec fn sum_fits_i32(s: Seq<i32>) -> bool {
    forall|k: int| 0 <= k <= s.len() ==> i32::MIN <= #[trigger] seq_sum(s.take(k)) <= i32::MAX
}

/// Whether entity `i` has both combat figures and pending damage.
pub open spec fn takes_damage(stats: Seq<Option<CombatStats>>, damage: Seq<Option<SufferDamage>>, i: int) -> bool {
    &&& 0 <= i < stats.len()
    &&& i < damage.len()
    &&& stats[i] is Some
    &&& damage[i] is Some
}

/// The combat figures of entity `i` once its pending damage is taken off its hit points.
pub open spec fn stats_after_damage(
    stats: Seq<Option<CombatStats>>,
    damage: Seq<Option<SufferDamage>>,
    i: int,
) -> Option<CombatStats> {
    if takes_damage(stats, damage, i) {
        let s = stats[i].unwrap();
        Some(CombatStats { hp: (s.hp - seq_sum(damage[i].unwrap().amount@)) as i32, ..s })
    } else {
        stats[i]
    }
}

/// The damage of entity `i` can be applied without overflow.
pub open spec fn damage_applies(stats: Seq<Option<CombatStats>>, damage: Seq<Option<SufferDamage>>, i: int) -> bool {
    takes_damage(stats, damage, i) ==> {
        let a = damage[i].unwrap().amount@;
        &&& sum_fits_i32(a)
        &&& i32::MIN <= stats[i].unwrap().hp - seq_sum(a) <= i32::MAX
    }
}

/// The sum of the amounts of `d`, in `i32`.
fn total_damage(d: &SufferDamage) -> (total: i32)
    requires
        sum_fits_i32(d.amount@),
    ensures
        total == seq_sum(d.amount@),
{
    let mut total: i32 = 0;
    let mut k: usize = 0;
    while k < d.amount.len()
        invariant
            0 <= k <= d.amount.len(),
            sum_fits_i32(d.amount@),
            total == seq_sum(d.amount@.take(k as int)),
        decreases d.amount.len() - k,
    {
        proof {
            let a = d.amount@;
            assert(a.take(k + 1).drop_last() =~= a.take(k as int));
            assert(a.take(k + 1).last() == a[k as int]);
            assert(i32::MIN <= seq_sum(a.take(k + 1)) <= i32::MAX);
        }
        total = total + d.amount[k];
        k = k + 1;
    }
    proof {
        assert(d.amount@.take(d.amount.len() as int) =~= d.amount@);
    }
    total
}

impl DamageSystem {
    /// Takes off the hit points of every entity with combat figures the sum of its pending
    /// damage, then removes all pending damage.
    pub fn run(&mut self, stats: &mut Vec<Option<CombatStats>>, damage: &mut Vec<Option<SufferDamage>>)
        requires
            forall|i: int| 0 <= i < old(stats).len() ==> #[trigger] damage_applies(old(stats)@, old(damage)@, i),
        ensures
            final(stats).len() == old(stats).len(),
            forall|i: int|
                0 <= i < old(stats).len() ==> #[trigger] final(stats)@[i] == stats_after_damage(
                    old(stats)@,
                    old(damage)@,
                    i,
                ),
            final(damage).len() == old(damage).len(),
            forall|i: int| 0 <= i < old(damage).len() ==> #[trigger] final(damage)@[i] is None,
    {
        let ghost s0 = stats@;
        let ghost d0 = damage@;
        let mut i: usize = 0;
        while i < stats.len()
            invariant
                0 <= i <= stats.len(),
                stats.len() == s0.len(),
                damage@ == d0,
                forall|j: int| 0 <= j < s0.len() ==> #[trigger] damage_applies(s0, d0, j),
                forall|j: int| 0 <= j < i ==> #[trigger] stats@[j] == stats_after_damage(s0, d0, j),
                forall|j: int| i <= j < s0.len() ==> #[trigger] stats@[j] == s0[j],
            decreases stats.len() - i,
        {
            proof {
                assert(damage_applies(s0, d0, i as int));
            }
            if i < damage.len() {
                match (&stats[i], &damage[i]) {
                    (Some(s), Some(d)) => {
                        let total = total_damage(d);
                        let updated = CombatStats { hp: s.hp - total, ..*s };
                        stats.set(i, Some(updated));
                    },
                    _ => {},
                }
            }
            i = i + 1;
        }
        let mut k: usize = 0;
        while k < damage.len()
            invariant
                0 <= k <= damage.len(),
                damage.len() == d0.len(),
                forall|j: int| 0 <= j < k ==> #[trigger] damage@[j] is None,
            decreases damage.len() - k,
        {
            damage.set(k, None);
            k = k + 1;
        }
    }
}

/// Whether entity `i` has combat figures and no hit points left.
pub open spec fn is_dead(stats: Seq<Option<CombatStats>>, i: int) -> bool {
    0 <= i < stats.len() && stats[i] is Some && stats[i].unwrap().hp < 1
}

/// Whether entity `i` is the player.
pub open spec fn is_player(players: Seq<Option<Player>>, i: int) -> bool {
    0 <= i < players.len() && players[i] is Some
}

/// The name of entity `i`, if it has one.
pub open spec fn name_of(names: Seq<Option<Name>>, i: int) -> Option<Seq<char>> {
    if 0 <= i < names.len() && names[i] is Some {
        Some(names[i].unwrap().name@)
    } else {
        None
    }
}

/// The log message for entity `i`: `"<name> är död"` for a dead entity that is not the
/// player and has a name, `"<name> (du) är död."` for the dead player, none otherwise.
pub open spec fn death_message(
    stats: Seq<Option<CombatStats>>,
    players: Seq<Option<Player>>,
    names: Seq<Option<Name>>,
    i: int,
) -> Option<Seq<char>> {
    if is_dead(stats, i) {
        if !is_player(players, i) {
            match name_of(names, i) {
                Some(n) => Some(n + " är död"@),
                None => None,
            }
        } else {
            Some(name_of(names, i).unwrap() + " (du) är död."@)
        }
    } else {
        None
    }
}

/// The messages logged for the first `n` entities, in entity order.
pub open spec fn death_messages(
    stats: Seq<Option<CombatStats>>,
    players: Seq<Option<Player>>,
    names: Seq<Option<Name>>,
    n: nat,
) -> Seq<Seq<char>>
    decreases n,
{
    if n == 0 {
        Seq::empty()
    } else {
        let before = death_messages(stats, players, names, (n - 1) as nat);
        match death_message(stats, players, names, n - 1) {
            Some(m) => before.push(m),
            None => before,
        }
    }
}

/// The entities among the first `n` that are dead and are not the player, in entity order.
pub open spec fn dead_entities(stats: Seq<Option<CombatStats>>, players: Seq<Option<Player>>, n: nat) -> Seq<usize>
    decreases n,
{
    if n == 0 {
        Seq::empty()
    } else {
        let before = dead_entities(stats, players, (n - 1) as nat);
        if is_dead(stats, n - 1) && !is_player(players, n - 1) {
            before.push((n - 1) as usize)
        } else {
            before
        }
    }
}

/// Finds the entities whose hit points have run out. Each one that is not the player is
/// returned, in entity order, to be deleted, and logged as dead when it has a name; a dead
/// player is logged but not returned.
pub fn delete_the_dead(
    combat_stats: &Vec<Option<CombatStats>>,
    players: &Vec<Option<Player>>,
    names: &Vec<Option<Name>>,
    log: &mut GameLog,
) -> (dead: Vec<usize>)
    requires
        forall|i: int|
            is_dead(combat_stats@, i) && is_player(players@, i) ==> #[trigger] name_of(names@, i) is Some,
    ensures
        dead@ == dead_entities(combat_stats@, players@, combat_stats.len() as nat),
        strings_view(final(log).entries@) == strings_view(old(log).entries@) + death_messages(
            combat_stats@,
            players@,
            names@,
            combat_stats.len() as nat,
        ),
{
    let mut dead: Vec<usize> = Vec::new();
    let ghost log0 = strings_view(log.entries@);
    let mut i: usize = 0;
    while i < combat_stats.len()
        invariant
            0 <= i <= combat_stats.len(),
            forall|j: int|
                is_dead(combat_stats@, j) && is_player(players@, j) ==> #[trigger] name_of(names@, j) is Some,
            dead@ == dead_entities(combat_stats@, players@, i as nat),
            strings_view(log.entries@) == log0 + death_messages(combat_stats@, players@, names@, i as nat),
        decreases combat_stats.len() - i,
    {
        let ghost before = strings_view(log.entries@);
        match &combat_stats[i] {
            Some(stats) => {
                if stats.hp < 1 {
                    let player = i < players.len() && players[i].is_some();
                    if !player {
                        if i < names.len() {
                            match &names[i] {
                                Some(victim_name) => {
                                    let mut msg = victim_name.name.clone();
                                    msg.append(" är död");
                                    log.entries.push(msg);
                                },
                                None => {},
                            }
                        }
                        dead.push(i);
                    } else {
                        proof {
                            assert(name_of(names@, i as int) is Some);
                        }
                        match &names[i] {
                            Some(player_name) => {
                                let mut msg = player_name.name.clone();
                                msg.append(" (du) är död.");
                                log.entries.push(msg);
                            },
                            None => {},
                        }
                    }
                }
            },
            None => {},
        }
        proof {
            assert(strings_view(log.entries@) == before + match death_message(
                combat_stats@,
                players@,
                names@,
                i as int,
            ) {
                Some(m) => seq![m],
                None => Seq::empty(),
            });
        }
        i = i + 1;
    }
    dead
}

/// The entities handed back for deletion are exactly the dead entities that are not the
/// player, each once and in increasing order: the player is never deleted.
pub proof fn lemma_dead_entities_exact(stats: Seq<Option<CombatStats>>, players: Seq<Option<Player>>, n: nat)
    requires
        n <= stats.len(),
        stats.len() <= usize::MAX,
    ensures
        forall|k: int|
            0 <= k < dead_entities(stats, players, n).len() ==> {
                let e = #[trigger] dead_entities(stats, players, n)[k] as int;
                &&& e < n
                &&& stats[e] is Some
                &&& stats[e].unwrap().hp < 1
                &&& !(e < players.len() && players[e] is Some)
            },
        forall|k: int, l: int|
            0 <= k < l < dead_entities(stats, players, n).len() ==> #[trigger] dead_entities(stats, players, n)[k]
                < #[trigger] dead_entities(stats, players, n)[l],
        forall|e: int|
            0 <= e < n && stats[e] is Some && stats[e].unwrap().hp < 1 && !(e < players.len() && players[e] is Some)
                ==> #[trigger] dead_entities(
                stats,
                players,
                n,
            ).contains(e as usize),
    decreases n,
{
    if n > 0 {
        lemma_dead_entities_exact(stats, players, (n - 1) as nat);
        let before = dead_entities(stats, players, (n - 1) as nat);
        let all = dead_entities(stats, players, n);
        assert forall|k: int| 0 <= k < all.len() implies {
            let e = #[trigger] all[k] as int;
            &&& e < n
            &&& is_dead(stats, e)
            &&& !is_player(players, e)
        } by {
            if k < before.len() {
                assert(all[k] == before[k]);
            }
        }
        assert forall|k: int, l: int| 0 <= k < l < all.len() implies #[trigger] all[k] < #[trigger] all[l] by {
            if l < before.len() {
                assert(all[k] == before[k]);
                assert(all[l] == before[l]);
            } else {
                assert(all[k] == before[k]);
            }
        }
        assert forall|e: int| 0 <= e < n && is_dead(stats, e) && !is_player(players, e) implies #[trigger] all.contains(
            e as usize,
        ) by {
            if e < n - 1 {
                assert(before.contains(e as usize));
                let k = choose|k: int| 0 <= k < before.len() && before[k] == e as usize;
                assert(all[k] == before[k]);
            } else {
                assert(all[all.len() - 1] == e as usize);
            }
        }
    }
}

/// Once the pending damage has been taken off and removed, running the damage system again
/// changes no hit points.
pub proof fn lemma_damage_applied_once(stats: Seq<Option<CombatStats>>, damage: Seq<Option<SufferDamage>>)
    requires
        forall|i: int| 0 <= i < damage.len() ==> #[trigger] damage[i] is None,
    ensures
        forall|i: int| 0 <= i < stats.len() ==> #[trigger] stats_after_damage(stats, damage, i) == stats[i],
{
}

/// The messages logged for the dead players among the first `n` entities, in entity order.
pub open spec fn player_death_messages(
    stats: Seq<Option<CombatStats>>,
    players: Seq<Option<Player>>,
    names: Seq<Option<Name>>,
    n: nat,
) -> Seq<Seq<char>>
    decreases n,
{
    if n == 0 {
        Seq::empty()
    } else {
        let before = player_death_messages(stats, players, names, (n - 1) as nat);
        if is_dead(stats, n - 1) && is_player(players, n - 1) {
            before.push(name_of(names, n - 1).unwrap() + " (du) är död."@)
        } else {
            before
        }
    }
}

/// A storage once the entities in `gone` are deleted: their components are removed, the rest
/// are kept.
pub open spec fn without_entities<T>(store: Seq<Option<T>>, gone: Seq<usize>) -> Seq<Option<T>> {
    Seq::new(store.len(), |i: int| if gone.contains(i as usize) { None } else { store[i] })
}

proof fn lemma_second_delete_prefix(
    stats: Seq<Option<CombatStats>>,
    players: Seq<Option<Player>>,
    names: Seq<Option<Name>>,
    n: nat,
)
    requires
        stats.len() <= usize::MAX,
        n <= stats.len(),
    ensures
        ({
            let gone = dead_entities(stats, players, stats.len() as nat);
            &&& dead_entities(without_entities(stats, gone), without_entities(players, gone), n) == Seq::<usize>::empty()
            &&& death_messages(
                without_entities(stats, gone),
                without_entities(players, gone),
                without_entities(names, gone),
                n,
            ) == player_death_messages(stats, players, names, n)
        }),
    decreases n,
{
    if n > 0 {
        lemma_second_delete_prefix(stats, players, names, (n - 1) as nat);
        let gone = dead_entities(stats, players, stats.len() as nat);
        lemma_dead_entities_exact(stats, players, stats.len() as nat);
        let i = n - 1;
        let s2 = without_entities(stats, gone);
        let p2 = without_entities(players, gone);
        let n2 = without_entities(names, gone);
        if gone.contains(i as usize) {
            let k = choose|k: int| 0 <= k < gone.len() && gone[k] == i as usize;
            assert(is_dead(stats, gone[k] as int) && !is_player(players, gone[k] as int));
            assert(s2[i] is None);
            assert(!is_dead(s2, i));
        } else {
            assert(s2[i] == stats[i]);
            if i < players.len() {
                assert(p2[i] == players[i]);
            }
            if i < names.len() {
                assert(n2[i] == names[i]);
            }
            assert(is_player(p2, i) == is_player(players, i));
            assert(name_of(n2, i) == name_of(names, i));
            if is_dead(stats, i) {
                assert(is_player(players, i));
            }
        }
    }
}

/// Calling `delete_the_dead` again once the entities it returned are deleted (all their
/// components removed) deletes nothing more, and logs only the deaths of the dead players
/// again.
pub proof fn lemma_second_delete_deletes_nothing(
    stats: Seq<Option<CombatStats>>,
    players: Seq<Option<Player>>,
    names: Seq<Option<Name>>,
)
    requires
        stats.len() <= usize::MAX,
    ensures
        ({
            let gone = dead_entities(stats, players, stats.len() as nat);
            let stats2 = without_entities(stats, gone);
            &&& dead_entities(stats2, without_entities(players, gone), stats2.len() as nat) == Seq::<usize>::empty()
            &&& death_messages(
                stats2,
                without_entities(players, gone),
                without_entities(names, gone),
                stats2.len() as nat,
            ) == player_death_messages(stats, players, names, stats.len() as nat)
        }),
{
    lemma_second_delete_prefix(stats, players, names, stats.len() as nat);
}

/// `seq_sum` is the arithmetic sum: 0 for no amounts, and adding an amount at the end adds it
/// to the sum.
pub proof fn lemma_seq_sum_is_sum(s: Seq<i32>, v: i32)
    ensures
        seq_sum(Seq::<i32>::empty()) == 0,
        seq_sum(s.push(v)) == seq_sum(s) + v,
        seq_sum(seq![v]) == v,
{
    assert(s.push(v).drop_last() =~= s);
    assert(seq![v].drop_last() =~= Seq::<i32>::empty());
}

/// Two amounts sum to their sum, whatever they are; in particular two equal amounts both count.
pub proof fn lemma_seq_sum_two(a: i32, b: i32)
    ensures
        seq_sum(seq![a, b]) == a + b,
{
    lemma_seq_sum_is_sum(Seq::<i32>::empty(), a);
    lemma_seq_sum_is_sum(seq![a], b);
    assert(seq![a].push(b) =~= seq![a, b]);
}

/// The damage system takes off exactly the sum of the amounts: for an entity with figures and
/// pending damage, the hit points after are those before less every amount, each counted once.
pub proof fn lemma_damage_takes_sum(
    stats: Seq<Option<CombatStats>>,
    damage: Seq<Option<SufferDamage>>,
    i: int,
    v: i32,
)
    requires
        0 <= i < stats.len(),
        i < damage.len(),
        stats[i] is Some,
        damage[i] is Some,
    ensures
        stats_after_damage(stats, damage, i).unwrap().hp == (stats[i].unwrap().hp - seq_sum(
            damage[i].unwrap().amount@,
        )) as i32,
        stats_after_damage(stats, damage, i).unwrap().max_hp == stats[i].unwrap().max_hp,
        stats_after_damage(stats, damage, i).unwrap().defense == stats[i].unwrap().defense,
        stats_after_damage(stats, damage, i).unwrap().power == stats[i].unwrap().power,
        damage[i].unwrap().amount@.len() == 0 ==> stats_after_damage(stats, damage, i) == stats[i],
{
    if damage[i].unwrap().amount@.len() == 0 {
        assert(seq_sum(damage[i].unwrap().amount@) == 0);
    }
}

/// The log lines of `delete_the_dead` are, in entity order, one per entity with combat figures and
/// no hit points left that is the player or has a name: `"<name> (du) är död."` for the player,
/// `"<name> är död"` for any other.
pub proof fn lemma_death_messages_exact(
    stats: Seq<Option<CombatStats>>,
    players: Seq<Option<Player>>,
    names: Seq<Option<Name>>,
    n: nat,
)
    requires
        forall|i: int|
            0 <= i < stats.len() && stats[i] is Some && stats[i].unwrap().hp < 1 && i < players.len()
                && players[i] is Some ==> i < names.len() && #[trigger] names[i] is Some,
    ensures
        death_messages(stats, players, names, n) == Seq::new(n, |i: int| i).filter(
            |i: int|
                0 <= i < stats.len() && stats[i] is Some && stats[i].unwrap().hp < 1 && ((i < players.len()
                    && players[i] is Some) || (i < names.len() && names[i] is Some)),
        ).map_values(
            |i: int|
                if i < players.len() && players[i] is Some {
                    names[i].unwrap().name@ + " (du) är död."@
                } else {
                    names[i].unwrap().name@ + " är död"@
                },
        ),
    decreases n,
{
    reveal(Seq::filter);
    if n > 0 {
        lemma_death_messages_exact(stats, players, names, (n - 1) as nat);
        let ids = Seq::new(n, |i: int| i);
        assert(ids.drop_last() =~= Seq::new((n - 1) as nat, |i: int| i));
        assert(ids.last() == n - 1);
        let pred = |i: int|
            0 <= i < stats.len() && stats[i] is Some && stats[i].unwrap().hp < 1 && ((i < players.len()
                && players[i] is Some) || (i < names.len() && names[i] is Some));
        let f = |i: int|
            if i < players.len() && players[i] is Some {
                names[i].unwrap().name@ + " (du) är död."@
            } else {
                names[i].unwrap().name@ + " är död"@
            };
        let sub = ids.drop_last().filter(pred);
        let i = n - 1;
        if pred(i) {
            assert(ids.filter(pred) == sub.push(i));
            assert(sub.push(i).map_values(f) =~= sub.map_values(f).push(f(i)));
            if i < players.len() && players[i] is Some {
                assert(names[i] is Some);
            }
            assert(death_message(stats, players, names, i) == Some(f(i)));
        } else {
            assert(ids.filter(pred) == sub);
            assert(death_message(stats, players, names, i) is None);
        }
    }
}

} // verus!
