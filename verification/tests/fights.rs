use card_sim::card::{CardStats, CardType, CombatState};
use card_sim::cards::Cards;
use card_sim::combat::{
    combat, fight, find_target, handle_enemies, strike, APPROACH_SPEED, STRIKE_RANGE,
};
use card_sim::geometry::Position;

fn at(x: i32, y: i32, z: i32) -> Position {
    Position { x, y, z }
}

#[test]
fn a_goblin_in_reach_strikes_after_its_cooldown_and_the_villager_strikes_back() {
    let mut cards = Cards::new();
    let villager = cards.spawn(CardType::Villager, at(0, 0, 0));
    let goblin = cards.spawn(CardType::Goblin, at(600, 800, 0));
    assert_eq!(cards.get(goblin).unwrap().info.stats.damage, 1);
    handle_enemies(16, &mut cards);
    let state = cards.get(goblin).unwrap().combat_state.unwrap();
    assert_eq!(state.target(), villager);
    assert_eq!(state.cooldown().duration(), 1000);
    assert_eq!(cards.get(goblin).unwrap().translation, at(600, 800, 0));
    assert!(cards.get(villager).unwrap().combat_state.is_none());

    combat(999, &mut cards);
    assert_eq!(cards.get(villager).unwrap().info.stats.health, 3);
    assert!(cards.get(villager).unwrap().combat_state.is_none());
    combat(1, &mut cards);
    assert_eq!(cards.get(villager).unwrap().info.stats.health, 2);
    assert_eq!(cards.get(villager).unwrap().info.stats.max_health, 3);
    let back = cards.get(villager).unwrap().combat_state.unwrap();
    assert_eq!(back.target(), goblin);
    assert_eq!(back.cooldown().duration(), 900);
    assert_eq!(back.cooldown().elapsed(), 0);
    assert!(cards.get(goblin).unwrap().combat_state.is_some());

    // the villager is the faster of the two
    combat(899, &mut cards);
    assert!(cards.get(goblin).is_some());
    combat(1, &mut cards);
    assert!(cards.get(goblin).is_none());
    assert!(cards.get(villager).unwrap().combat_state.is_none());
    assert_eq!(cards.get(villager).unwrap().info.stats.health, 2);
}

#[test]
fn a_villager_with_one_health_dies_of_one_damage() {
    let mut cards = Cards::new();
    let villager = cards.spawn(CardType::Villager, at(0, 0, 0));
    let goblin = cards.spawn(CardType::Goblin, at(0, 500, 0));
    handle_enemies(0, &mut cards);
    strike(goblin, villager, 1, &mut cards);
    strike(goblin, villager, 1, &mut cards);
    assert_eq!(cards.get(villager).unwrap().info.stats.health, 1);
    assert!(cards.get(goblin).unwrap().combat_state.is_some());
    strike(goblin, villager, 1, &mut cards);
    assert!(cards.get(villager).is_none());
    assert!(cards.get(goblin).unwrap().combat_state.is_none());
    assert_eq!(cards.len(), 2);
}

#[test]
fn health_stops_at_zero() {
    let mut stats = CardStats { health: 3, max_health: 3, damage: 1 };
    stats.take_damage(2);
    assert_eq!(stats.health, 1);
    stats.take_damage(0);
    assert_eq!(stats.health, 1);
    stats.take_damage(5);
    assert_eq!(stats.health, 0);
    stats.take_damage(usize::MAX);
    assert_eq!(stats.health, 0);
    let mut big = CardStats { health: isize::MAX, max_health: 3, damage: 1 };
    big.take_damage(usize::MAX);
    assert_eq!(big.health, 0);
    let mut whole = CardStats { health: isize::MAX, max_health: 3, damage: 1 };
    whole.take_damage(isize::MAX as usize - 1);
    assert_eq!(whole.health, 1);
    let mut negative = CardStats { health: -4, max_health: 3, damage: 1 };
    negative.take_damage(0);
    assert_eq!(negative.health, 0);
    assert_eq!((stats.max_health, stats.damage), (3, 1));
}

#[test]
fn the_nearest_villager_is_chosen_and_the_first_of_equals() {
    let mut cards = Cards::new();
    assert_eq!(find_target(&cards, &at(0, 0, 0)), None);
    cards.spawn(CardType::Log, at(0, 0, 0));
    cards.spawn(CardType::Goblin, at(1, 0, 0));
    assert_eq!(find_target(&cards, &at(0, 0, 0)), None);
    let far = cards.spawn(CardType::Villager, at(5000, 0, 0));
    assert_eq!(find_target(&cards, &at(0, 0, 0)), Some(far));
    let near = cards.spawn(CardType::Villager, at(0, -3000, 0));
    let as_near = cards.spawn(CardType::Villager, at(0, 0, 3000));
    assert_eq!(find_target(&cards, &at(0, 0, 0)), Some(near));
    assert_eq!(find_target(&cards, &at(0, 0, 1)), Some(as_near));
    assert_eq!(find_target(&cards, &at(4000, 0, 0)), Some(far));
}

#[test]
fn a_goblin_out_of_reach_walks_towards_the_villager() {
    let mut cards = Cards::new();
    let villager = cards.spawn(CardType::Villager, at(3000, 4000, 0));
    let goblin = cards.spawn(CardType::Goblin, at(0, 0, 0));
    handle_enemies(1000, &mut cards);
    assert_eq!(cards.get(goblin).unwrap().translation, at(600, 800, 0));
    assert!(cards.get(goblin).unwrap().combat_state.is_none());
    assert_eq!(cards.get(villager).unwrap().translation, at(3000, 4000, 0));
    handle_enemies(2999, &mut cards);
    assert_eq!(cards.get(goblin).unwrap().translation, at(2399, 3199, 0));
    assert!(cards.get(goblin).unwrap().combat_state.is_none());
    // one step more and the villager is exactly in reach
    handle_enemies(1, &mut cards);
    assert!(cards.get(goblin).unwrap().combat_state.is_none());
    handle_enemies(1, &mut cards);
    assert_eq!(cards.get(goblin).unwrap().translation, at(2400, 3200, 0));
    assert_eq!(cards.get(goblin).unwrap().combat_state.unwrap().target(), villager);
    assert_eq!((STRIKE_RANGE, APPROACH_SPEED), (1000, 1));
}

#[test]
fn a_goblin_without_villagers_stays_idle() {
    let mut cards = Cards::new();
    let goblin = cards.spawn(CardType::Goblin, at(0, 0, 0));
    cards.spawn(CardType::Log, at(100, 0, 0));
    handle_enemies(1000, &mut cards);
    assert_eq!(cards.get(goblin).unwrap().translation, at(0, 0, 0));
    assert!(cards.get(goblin).unwrap().combat_state.is_none());
    combat(5000, &mut cards);
    assert_eq!(cards.len(), 2);
}

#[test]
fn a_goblin_in_a_fight_does_not_choose_again() {
    let mut cards = Cards::new();
    let first = cards.spawn(CardType::Villager, at(0, 900, 0));
    let goblin = cards.spawn(CardType::Goblin, at(0, 0, 0));
    handle_enemies(10, &mut cards);
    let nearer = cards.spawn(CardType::Villager, at(0, 100, 0));
    handle_enemies(10, &mut cards);
    assert_eq!(cards.get(goblin).unwrap().combat_state.unwrap().target(), first);
    assert_ne!(first, nearer);
}

#[test]
fn an_attacker_whose_target_is_gone_leaves_the_fight() {
    let mut cards = Cards::new();
    let villager = cards.spawn(CardType::Villager, at(0, 0, 0));
    let one = cards.spawn(CardType::Goblin, at(0, 500, 0));
    let two = cards.spawn(CardType::Goblin, at(500, 0, 0));
    handle_enemies(0, &mut cards);
    for _ in 0..3 {
        strike(one, villager, 1, &mut cards);
    }
    assert!(cards.get(villager).is_none());
    assert!(cards.get(two).unwrap().combat_state.is_some());
    fight(two, 999, &mut cards);
    assert!(cards.get(two).unwrap().combat_state.is_some());
    fight(two, 1, &mut cards);
    assert!(cards.get(two).unwrap().combat_state.is_none());
    assert_eq!(cards.get(two).unwrap().info.stats.health, 1);
    // a blow at oneself is no blow
    strike(one, one, 1, &mut cards);
    assert_eq!(cards.get(one).unwrap().info.stats.health, 1);
    strike(9, one, 1, &mut cards);
    assert_eq!(cards.get(one).unwrap().info.stats.health, 1);
}

#[test]
fn a_card_in_a_fight_keeps_its_own_fight_when_struck() {
    let mut cards = Cards::new();
    let villager = cards.spawn(CardType::Villager, at(0, 0, 0));
    let one = cards.spawn(CardType::Goblin, at(0, 500, 0));
    let two = cards.spawn(CardType::Goblin, at(500, 0, 0));
    handle_enemies(0, &mut cards);
    strike(one, villager, 1, &mut cards);
    strike(two, villager, 1, &mut cards);
    let back = cards.get(villager).unwrap().combat_state.unwrap();
    assert_eq!(back.target(), one);
    assert_eq!(back.cooldown().duration(), CombatState::RETALIATION_COOLDOWN);
    assert_eq!(cards.get(villager).unwrap().info.stats.health, 1);
}

#[test]
fn blows_fall_in_the_order_of_the_identities() {
    let mut cards = Cards::new();
    let goblin = cards.spawn(CardType::Goblin, at(0, 500, 0));
    let villager = cards.spawn(CardType::Villager, at(0, 0, 0));
    handle_enemies(0, &mut cards);
    combat(1000, &mut cards);
    // the goblin struck first; the villager began its fight and struck back in the same pass
    assert_eq!(cards.get(villager).unwrap().info.stats.health, 2);
    assert!(cards.get(villager).unwrap().combat_state.is_none());
    assert!(cards.get(goblin).is_none());
}

#[test]
fn one_enemy_moves_at_a_time() {
    let mut cards = Cards::new();
    let villager = cards.spawn(CardType::Villager, at(0, 2000, 0));
    let one = cards.spawn(CardType::Goblin, at(0, 0, 0));
    let two = cards.spawn(CardType::Goblin, at(0, 4000, 0));
    card_sim::combat::pursue(one, 500, &mut cards);
    assert_eq!(cards.get(one).unwrap().translation, at(0, 500, 0));
    assert_eq!(cards.get(two).unwrap().translation, at(0, 4000, 0));
    card_sim::combat::pursue(villager, 500, &mut cards);
    card_sim::combat::pursue(9, 500, &mut cards);
    assert_eq!(cards.get(villager).unwrap().translation, at(0, 2000, 0));
    card_sim::combat::pursue(two, 1000, &mut cards);
    assert_eq!(cards.get(two).unwrap().translation, at(0, 3000, 0));
    card_sim::combat::pursue(two, 1000, &mut cards);
    assert_eq!(cards.get(two).unwrap().combat_state.unwrap().target(), villager);
}

#[test]
fn as_many_hearts_are_full_as_the_card_has_health() {
    let mut stats = CardStats { health: 2, max_health: 3, damage: 1 };
    assert!(stats.heart_is_full(0));
    assert!(stats.heart_is_full(1));
    assert!(!stats.heart_is_full(2));
    stats.take_damage(2);
    assert!(!stats.heart_is_full(0));
    let odd = CardStats { health: -1, max_health: 3, damage: 1 };
    assert!(!odd.heart_is_full(0));
    assert!(!odd.heart_is_full(usize::MAX));
}
