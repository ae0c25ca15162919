use card_sim::board::{enemy_tile_spawner, EnemyTileSpawner};
use card_sim::card::CombatState;
use card_sim::timer::{Cooldown, ProgressBar, ProgressBars};

#[test]
fn a_cooldown_fires_when_its_round_is_over_and_wraps_around() {
    let mut c = Cooldown::repeating(1000);
    assert_eq!((c.duration(), c.elapsed()), (1000, 0));
    assert!(!c.tick(999));
    assert_eq!(c.elapsed(), 999);
    assert!(c.tick(1));
    assert_eq!(c.elapsed(), 0);
    assert!(c.tick(1500));
    assert_eq!(c.elapsed(), 500);
    assert!(c.tick(2600));
    assert_eq!(c.elapsed(), 100);
    assert!(!c.tick(0));
    assert_eq!((c.duration(), c.elapsed()), (1000, 100));
}

#[test]
fn a_cooldown_takes_the_longest_tick() {
    let mut c = Cooldown::repeating(7);
    assert!(!c.tick(6));
    assert!(c.tick(u32::MAX));
    assert_eq!(c.elapsed(), ((6u64 + u32::MAX as u64) % 7) as u32);
    let mut long = Cooldown::repeating(u32::MAX);
    assert!(!long.tick(u32::MAX - 1));
    assert!(long.tick(u32::MAX));
    assert_eq!(long.elapsed(), u32::MAX - 1);
}

#[test]
fn a_cooldown_without_length_fires_on_every_tick() {
    let mut c = Cooldown::repeating(0);
    assert!(c.tick(0));
    assert!(c.tick(5));
    assert_eq!((c.duration(), c.elapsed()), (0, 0));
}

#[test]
fn a_fight_counts_down_to_its_blows() {
    let mut state = CombatState::new(CombatState::RETALIATION_COOLDOWN, 12);
    assert_eq!(state.target(), 12);
    assert_eq!(state.cooldown().duration(), 900);
    assert!(!state.tick(899));
    assert!(state.tick(2));
    assert_eq!(state.cooldown().elapsed(), 1);
    assert_eq!(state.target(), 12);
    assert_eq!(CombatState::ATTACK_COOLDOWN, 1000);
}

#[test]
fn a_progress_bar_fills_up_and_no_further() {
    let mut bar = ProgressBar::new(5000);
    assert!(!bar.finished());
    bar.add(4999);
    assert_eq!(bar, ProgressBar { current: 4999, total: 5000 });
    assert!(!bar.finished());
    bar.add(u32::MAX);
    assert_eq!(bar, ProgressBar { current: 5000, total: 5000 });
    assert!(bar.finished());
    bar.add(1);
    assert_eq!(bar.current, 5000);
    bar.reset();
    assert_eq!(bar, ProgressBar { current: 0, total: 5000 });
    assert!(ProgressBar::new(0).finished());
}

#[test]
fn bars_keep_their_identities() {
    let mut bars = ProgressBars::default();
    assert_eq!(bars.spawn(10), 0);
    assert_eq!(bars.spawn(20), 1);
    assert_eq!(bars.len(), 2);
    bars.despawn(0);
    bars.despawn(5);
    assert_eq!(bars.get(0), None);
    assert_eq!(bars.get(1), Some(ProgressBar { current: 0, total: 20 }));
    assert_eq!(bars.get(2), None);
    assert_eq!(bars.spawn(30), 2);
    bars.set(1, ProgressBar { current: 7, total: 20 });
    assert_eq!(bars.get(1).unwrap().current, 7);
    bars.set(0, ProgressBar { current: 7, total: 20 });
    bars.set(9, ProgressBar { current: 7, total: 20 });
    assert_eq!(bars.get(0), None);
    assert_eq!(bars.len(), 3);
}

#[test]
fn the_spawner_of_enemy_tiles_is_due_once_a_minute() {
    let mut spawner = EnemyTileSpawner::new();
    assert_eq!(spawner.grid_size, (0, 0));
    assert!(!enemy_tile_spawner(&mut spawner, 59_999));
    assert_eq!(spawner.grid_size, (3, 3));
    assert_eq!(spawner.timer.unwrap().elapsed(), 59_999);
    assert!(enemy_tile_spawner(&mut spawner, 2));
    assert_eq!(spawner.timer.unwrap().elapsed(), 1);
    assert_eq!(spawner.timer.unwrap().duration(), 60_000);
    spawner.grid_size = (5, 4);
    assert!(!enemy_tile_spawner(&mut spawner, 0));
    assert_eq!(spawner.grid_size, (5, 4));
}
