use vstd::prelude::*;
use crate::geometry::Point;

verus! {

/// Where an entity stands on the map.
#[derive(Clone, Copy, Debug, PartialEq, Eq, Structural)]
pub struct Position {
    pub x: i32,
    pub y: i32,
}

/// What an entity can see: the tiles in its field of view, how far it sees, and whether the
/// field must be computed again.
#[derive(Debug)]
pub struct Viewshed {
    pub visible_tiles: Vec<Point>,
    pub range: i32,
    pub dirty: bool,
}

/// Marks an entity as a monster.
#[derive(Clone, Copy, Debug, PartialEq, Eq, Structural)]
pub struct Monster {}

/// Marks an entity as the player.
#[derive(Clone, Copy, Debug, PartialEq, Eq, Structural)]
pub struct Player {}

/// The name an entity goes by in the log.
#[derive(Debug)]
pub struct Name {
    pub name: String,
}

/// The fighting figures of an entity.
#[derive(Clone, Copy, Debug, PartialEq, Eq, Structural)]
pub struct CombatStats {
    pub max_hp: i32,
    pub hp: i32,
    pub defense: i32,
    pub power: i32,
}

/// A request of an entity to attack `target` (an entity index) in melee.
#[derive(Clone, Copy, Debug, PartialEq, Eq, Structural)]
pub struct WantsToMelee {
    pub target: usize,
}

/// The damage an entity is about to take this turn, one amount per blow.
#[derive(Debug)]
pub struct SufferDamage {
    pub amount: Vec<i32>,
}

/// Whose turn it is.
#[derive(Clone, Copy, Debug, PartialEq, Eq, Structural)]
pub enum RunState {
    AwaitingInput,
    PreRun,
    PlayerTurn,
    MonsterTurn,
}

/// The messages of the game, oldest first.
#[derive(Debug)]
pub struct GameLog {
    pub entries: Vec<String>,
}

/// The amounts held in an optional damage component, if there is one.
pub open spec fn amounts(d: Option<SufferDamage>) -> Option<Seq<i32>> {
    match d {
        Some(d) => Some(d.amount@),
        None => None,
    }
}

/// The amounts an entity holds after `blows` are added to the damage it had: appended to
/// its list when it had one, a new list when there are blows, and nothing otherwise.
pub open spec fn amounts_after(before: Option<Seq<i32>>, blows: Seq<i32>) -> Option<Seq<i32>> {
    match before {
        Some(a) => Some(a + blows),
        None => if blows.len() == 0 {
            None
        } else {
            Some(blows)
        },
    }
}

/// The views of a sequence of strings.
pub open spec fn strings_view(v: Seq<String>) -> Seq<Seq<char>> {
    v.map_values(|s: String| s@)
}

impl SufferDamage {
    /// Records a blow of `amount` against entity `victim`: appended to the damage it already
    /// has, or given to it as its first.
    pub fn new_damage(store: &mut Vec<Option<SufferDamage>>, victim: usize, amount: i32)
        requires
            victim < old(store).len(),
        ensures
            final(store).len() == old(store).len(),
            amounts(final(store)@[victim as int]) == amounts_after(amounts(old(store)@[victim as int]), seq![amount]),
            forall|i: int|
                0 <= i < old(store).len() && i != victim ==> #[trigger] final(store)@[i] == old(store)@[i],
    {
        let mut taken: Option<SufferDamage> = None;
        std::mem::swap(&mut taken, &mut store[victim]);
        match taken {
            Some(mut suffering) => {
                suffering.amount.push(amount);
                store.set(victim, Some(suffering));
            },
            None => {
                let dmg = SufferDamage { amount: vec![amount] };
                store.set(victim, Some(dmg));
            },
        }
    }
}

/// Adding blows loses none and reorders none: the entity then holds the blows it had (none if
/// it had no damage component) followed by the new ones, and has a component exactly when it had
/// one or there are new blows.
pub proof fn lemma_amounts_after_keeps_every_blow(before: Option<Seq<i32>>, blows: Seq<i32>)
    ensures
        (before is Some || blows.len() > 0) ==> amounts_after(before, blows) == Some(
            match before {
                Some(a) => a,
                None => Seq::<i32>::empty(),
            } + blows,
        ),
        (before is None && blows.len() == 0) ==> amounts_after(before, blows) is None,
{
    if before is None {
        assert(Seq::<i32>::empty() + blows =~= blows);
    }
}

} // verus!
