use rustlike::components::{
    CombatStats, GameLog, Name, Player, Position, RunState, SufferDamage, Viewshed, WantsToMelee,
};
use rustlike::damage_system::{delete_the_dead, DamageSystem};
use rustlike::geometry::Point;
use rustlike::map::{GameMap, TileType};
use rustlike::melee_combat_system::{MeleeCombatSystem, MeleeEvent};
use rustlike::monster_ai_system::{MonsterAI, MonsterAction, PathResult};
use rustlike::visibility_system::VisibilitySystemOld;

fn stats(hp: i32, defense: i32, power: i32) -> CombatStats {
    CombatStats { max_hp: 30, hp, defense, power }
}

fn name(s: &str) -> Option<Name> {
    Some(Name { name: s.to_string() })
}

fn amounts(d: &Option<SufferDamage>) -> Option<Vec<i32>> {
    d.as_ref().map(|d| d.amount.clone())
}

#[test]
fn new_damage_appends_or_creates() {
    let mut store: Vec<Option<SufferDamage>> = vec![None, Some(SufferDamage { amount: vec![2] }), None];
    SufferDamage::new_damage(&mut store, 1, 5);
    SufferDamage::new_damage(&mut store, 2, 7);
    assert_eq!(amounts(&store[0]), None);
    assert_eq!(amounts(&store[1]), Some(vec![2, 5]));
    assert_eq!(amounts(&store[2]), Some(vec![7]));
}

#[test]
fn damage_system_subtracts_sum_and_clears() {
    let mut s = vec![Some(stats(30, 1, 5)), Some(stats(10, 1, 5)), None, Some(stats(4, 0, 0))];
    let mut d = vec![
        Some(SufferDamage { amount: vec![3, 4, 5] }),
        None,
        Some(SufferDamage { amount: vec![9] }),
        Some(SufferDamage { amount: vec![] }),
    ];
    DamageSystem {}.run(&mut s, &mut d);
    assert_eq!(s[0], Some(stats(18, 1, 5)));
    assert_eq!(s[1], Some(stats(10, 1, 5)));
    assert_eq!(s[2], None);
    assert_eq!(s[3], Some(stats(4, 0, 0)));
    assert_eq!(d.len(), 4);
    assert!(d.iter().all(|x| x.is_none()));
}

#[test]
fn damage_can_take_hp_below_zero() {
    let mut s = vec![Some(stats(3, 0, 0))];
    let mut d = vec![Some(SufferDamage { amount: vec![10] })];
    DamageSystem {}.run(&mut s, &mut d);
    assert_eq!(s[0].unwrap().hp, -7);
}

#[test]
fn delete_the_dead_logs_and_spares_the_player() {
    let s = vec![Some(stats(0, 0, 0)), Some(stats(5, 0, 0)), Some(stats(-3, 0, 0)), Some(stats(1, 0, 0)), Some(stats(0, 0, 0))];
    let players = vec![None, None, None, None, Some(Player {})];
    let names = vec![name("Orc"), name("Goblin"), None, name("Kobold"), name("Hero")];
    let mut log = GameLog { entries: vec!["Välkommen".to_string()] };
    let dead = delete_the_dead(&s, &players, &names, &mut log);
    assert_eq!(dead, vec![0, 2]);
    assert_eq!(
        log.entries,
        vec!["Välkommen".to_string(), "Orc är död".to_string(), "Hero (du) är död.".to_string()]
    );
}

#[test]
fn delete_the_dead_with_nobody_dead() {
    let s = vec![Some(stats(1, 0, 0)), None];
    let mut log = GameLog { entries: Vec::new() };
    let dead = delete_the_dead(&s, &vec![], &vec![], &mut log);
    assert!(dead.is_empty());
    assert!(log.entries.is_empty());
}

#[test]
fn melee_hits_blocks_and_clears_requests() {
    // 0: player, 1: strong orc, 2: weak rat, 3: dead goblin, 4: no name
    let mut wants = vec![
        Some(WantsToMelee { target: 1 }),
        Some(WantsToMelee { target: 0 }),
        Some(WantsToMelee { target: 0 }),
        Some(WantsToMelee { target: 0 }),
        Some(WantsToMelee { target: 0 }),
    ];
    let names = vec![name("Hero"), name("Orc"), name("Rat"), name("Goblin"), None];
    let combat = vec![
        Some(stats(30, 2, 5)),
        Some(stats(16, 1, 4)),
        Some(stats(5, 0, 1)),
        Some(stats(0, 0, 9)),
        Some(stats(5, 0, 9)),
    ];
    let mut damage: Vec<Option<SufferDamage>> = vec![None, Some(SufferDamage { amount: vec![1] }), None, None, None];
    let events = MeleeCombatSystem {}.run(&mut wants, &names, &combat, &mut damage);
    assert_eq!(
        events,
        vec![
            MeleeEvent::Hit { attacker: 0, target: 1, damage: 4 },
            MeleeEvent::Hit { attacker: 1, target: 0, damage: 2 },
            MeleeEvent::Blocked { attacker: 2, target: 0 },
        ]
    );
    assert_eq!(amounts(&damage[0]), Some(vec![2]));
    assert_eq!(amounts(&damage[1]), Some(vec![1, 4]));
    assert_eq!(amounts(&damage[2]), None);
    assert!(wants.iter().all(|w| w.is_none()));
}

#[test]
fn melee_against_dead_target_does_nothing() {
    let mut wants = vec![Some(WantsToMelee { target: 1 }), None];
    let names = vec![name("Hero"), None];
    let combat = vec![Some(stats(30, 2, 5)), Some(stats(0, 0, 0))];
    let mut damage: Vec<Option<SufferDamage>> = vec![None, None];
    let events = MeleeCombatSystem {}.run(&mut wants, &names, &combat, &mut damage);
    assert!(events.is_empty());
    assert!(damage.iter().all(|d| d.is_none()));
    assert!(wants.iter().all(|w| w.is_none()));
}

fn small_map() -> GameMap {
    GameMap {
        tiles: vec![TileType::Floor; 20],
        rooms: Vec::new(),
        width: 5,
        height: 4,
        revealed_tiles: vec![false; 20],
        visible_tiles: vec![false; 20],
        blocked: vec![false; 20],
    }
}

#[test]
fn visibility_keeps_points_inside_the_map() {
    let map = small_map();
    let mut vs = Viewshed { visible_tiles: vec![Point::new(9, 9)], range: 8, dirty: true };
    let field = vec![Point::new(0, 0), Point::new(-1, 2), Point::new(4, 3), Point::new(5, 1), Point::new(2, 4), Point::new(2, 2)];
    VisibilitySystemOld {}.run(&map, &mut vs, field);
    assert_eq!(vs.visible_tiles, vec![Point::new(0, 0), Point::new(4, 3), Point::new(2, 2)]);
    assert_eq!(vs.range, 8);
    assert!(vs.dirty);
}

#[test]
fn monsters_act_only_on_their_turn() {
    assert!(MonsterAI::acts_in(RunState::MonsterTurn));
    assert!(!MonsterAI::acts_in(RunState::PlayerTurn));
    assert!(!MonsterAI::acts_in(RunState::AwaitingInput));
    assert!(!MonsterAI::acts_in(RunState::PreRun));
}

#[test]
fn monster_decisions() {
    let sees = Viewshed { visible_tiles: vec![Point::new(1, 1), Point::new(3, 2)], range: 8, dirty: false };
    let blind = Viewshed { visible_tiles: vec![Point::new(1, 1)], range: 8, dirty: false };
    let player = Point::new(3, 2);
    assert_eq!(MonsterAI::decide(true, &blind, player), MonsterAction::Attack);
    assert_eq!(MonsterAI::decide(false, &sees, player), MonsterAction::Chase);
    assert_eq!(MonsterAI::decide(false, &blind, player), MonsterAction::Wait);
}

#[test]
fn monster_follows_second_step_of_path() {
    let mut map = small_map();
    map.blocked[6] = true;
    let mut pos = Position { x: 1, y: 1 };
    let mut vs = Viewshed { visible_tiles: Vec::new(), range: 8, dirty: false };
    let path = PathResult { success: true, steps: vec![6, 12, 13] };
    MonsterAI::follow_path(&mut map, &mut pos, &mut vs, &path);
    assert_eq!(pos, Position { x: 2, y: 2 });
    assert!(!map.blocked[6]);
    assert!(map.blocked[12]);
    assert_eq!(map.blocked.iter().filter(|b| **b).count(), 1);
    assert!(vs.dirty);
}

#[test]
fn monster_stays_without_a_usable_path() {
    let mut map = small_map();
    let mut pos = Position { x: 1, y: 1 };
    let mut vs = Viewshed { visible_tiles: Vec::new(), range: 8, dirty: false };
    MonsterAI::follow_path(&mut map, &mut pos, &mut vs, &PathResult { success: false, steps: vec![6, 7] });
    MonsterAI::follow_path(&mut map, &mut pos, &mut vs, &PathResult { success: true, steps: vec![6] });
    assert_eq!(pos, Position { x: 1, y: 1 });
    assert!(map.blocked.iter().all(|b| !*b));
    assert!(!vs.dirty);
}

#[test]
fn second_damage_run_changes_nothing() {
    let mut s = vec![Some(stats(20, 0, 0)), Some(stats(7, 0, 0))];
    let mut d = vec![Some(SufferDamage { amount: vec![4] }), None];
    DamageSystem {}.run(&mut s, &mut d);
    let after_first = s.clone();
    DamageSystem {}.run(&mut s, &mut d);
    assert_eq!(s, after_first);
    assert_eq!(s[0], Some(stats(16, 0, 0)));
}

#[test]
fn second_melee_run_resolves_nothing() {
    let mut wants = vec![Some(WantsToMelee { target: 1 }), None];
    let names = vec![name("Hero"), name("Orc")];
    let combat = vec![Some(stats(30, 2, 5)), Some(stats(10, 1, 3))];
    let mut damage: Vec<Option<SufferDamage>> = vec![None, None];
    let first = MeleeCombatSystem {}.run(&mut wants, &names, &combat, &mut damage);
    assert_eq!(first, vec![MeleeEvent::Hit { attacker: 0, target: 1, damage: 4 }]);
    let second = MeleeCombatSystem {}.run(&mut wants, &names, &combat, &mut damage);
    assert!(second.is_empty());
    assert_eq!(amounts(&damage[1]), Some(vec![4]));
    assert_eq!(amounts(&damage[0]), None);
}

#[test]
fn monster_on_empty_map_without_path_does_nothing() {
    let mut map = GameMap::default();
    let mut pos = Position { x: 4, y: 7 };
    let mut vs = Viewshed { visible_tiles: vec![Point::new(1, 1)], range: 8, dirty: false };
    MonsterAI::follow_path(&mut map, &mut pos, &mut vs, &PathResult { success: false, steps: Vec::new() });
    assert_eq!(pos, Position { x: 4, y: 7 });
    assert!(map.blocked.is_empty());
    assert!(!vs.dirty);
    assert_eq!(vs.visible_tiles, vec![Point::new(1, 1)]);
}

#[test]
fn second_delete_the_dead_deletes_nothing() {
    let mut s = vec![Some(stats(0, 0, 0)), Some(stats(5, 0, 0)), Some(stats(-1, 0, 0))];
    let mut players = vec![None, None, Some(Player {})];
    let mut names = vec![name("Orc"), name("Goblin"), name("Hero")];
    let mut log = GameLog { entries: Vec::new() };
    let dead = delete_the_dead(&s, &players, &names, &mut log);
    assert_eq!(dead, vec![0]);
    for i in dead {
        s[i] = None;
        players[i] = None;
        names[i] = None;
    }
    let mut log2 = GameLog { entries: Vec::new() };
    let again = delete_the_dead(&s, &players, &names, &mut log2);
    assert!(again.is_empty());
    assert_eq!(log2.entries, vec!["Hero (du) är död.".to_string()]);
}
