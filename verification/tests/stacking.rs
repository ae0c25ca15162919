use card_sim::breeding::{evaluate_stacks, BREED_TIME};
use card_sim::card::{CardType, SelectedCard};
use card_sim::cards::Cards;
use card_sim::geometry::Position;
use card_sim::registry::{StackRoots, StackType};
use card_sim::stack::{collide_cards, find_stack_root, find_stack_top, Collision};
use card_sim::timer::ProgressBars;

fn at(x: i32, y: i32, z: i32) -> Position {
    Position { x, y, z }
}

#[test]
fn two_villagers_that_touch_breed_a_third() {
    let mut cards = Cards::new();
    let mut bars = ProgressBars::new();
    let mut roots = StackRoots::new();
    let a = cards.spawn(CardType::Villager, at(-500, 0, 0));
    let b = cards.spawn(CardType::Villager, at(500, 0, 10));
    assert_eq!(cards.get(a).unwrap().info.stats.health, 3);
    assert_eq!(cards.get(a).unwrap().info.stats.max_health, 3);

    collide_cards(
        &vec![Collision { first: a, second: b }],
        &mut roots,
        &SelectedCard::Nothing,
        &mut cards,
    );
    assert_eq!(cards.get(a).unwrap().stack_child, Some(b));
    assert_eq!(cards.get(b).unwrap().stack_parent, Some(a));
    assert_eq!(roots.stack_type(a), Some(StackType::Pending));
    assert!(roots.is_queued(a));
    assert_eq!(find_stack_root(&cards, b), a);
    assert_eq!(find_stack_top(&cards, a), b);

    evaluate_stacks(&mut bars, 0, &mut roots, &mut cards);
    let bar = match roots.stack_type(a) {
        Some(StackType::Breed { progress_bar }) => progress_bar,
        other => panic!("the stack should breed, but is {:?}", other),
    };
    assert_eq!(bars.get(bar).unwrap().total, 5000);
    assert_eq!(BREED_TIME, 5000);
    assert!(!roots.is_queued(a));

    evaluate_stacks(&mut bars, 4999, &mut roots, &mut cards);
    assert_eq!(cards.len(), 2);
    evaluate_stacks(&mut bars, 1, &mut roots, &mut cards);
    assert_eq!(cards.len(), 3);
    let child = cards.get(2).unwrap();
    assert_eq!(child.info.card_type, CardType::Villager);
    assert_eq!(child.translation, at(500, 0, 0));
    assert!(bars.get(bar).is_none());
    assert_eq!(roots.stack_type(a), Some(StackType::Pending));
    assert!(roots.is_queued(a));

    evaluate_stacks(&mut bars, 0, &mut roots, &mut cards);
    assert!(matches!(roots.stack_type(a), Some(StackType::Breed { .. })));
}

fn stack_of_three() -> (Cards, StackRoots, usize, usize, usize) {
    let mut cards = Cards::new();
    let mut roots = StackRoots::new();
    let a = cards.spawn(CardType::Log, at(0, 0, 0));
    let b = cards.spawn(CardType::Log, at(0, 0, 10));
    let c = cards.spawn(CardType::Villager, at(0, 0, 20));
    collide_cards(
        &vec![Collision { first: a, second: b }, Collision { first: c, second: a }],
        &mut roots,
        &SelectedCard::Nothing,
        &mut cards,
    );
    (cards, roots, a, b, c)
}

#[test]
fn the_card_in_front_is_laid_on_the_top_of_the_stack() {
    let (cards, roots, a, b, c) = stack_of_three();
    assert_eq!(cards.get(a).unwrap().stack_parent, None);
    assert_eq!(cards.get(a).unwrap().stack_child, Some(b));
    assert_eq!(cards.get(b).unwrap().stack_parent, Some(a));
    assert_eq!(cards.get(b).unwrap().stack_child, Some(c));
    assert_eq!(cards.get(c).unwrap().stack_parent, Some(b));
    assert_eq!(cards.get(c).unwrap().stack_child, None);
    assert_eq!(find_stack_root(&cards, c), a);
    assert_eq!(find_stack_top(&cards, a), c);
    // the card that was laid onto becomes a registered root, even in the middle of a stack
    assert_eq!(roots.stack_type(a), Some(StackType::Pending));
    assert_eq!(roots.stack_type(b), Some(StackType::Pending));
    assert_eq!(roots.stack_type(c), None);
    assert!(roots.is_queued(a) && roots.is_queued(b) && !roots.is_queued(c));
}

#[test]
fn every_reference_is_answered_after_stacking() {
    let (cards, _, _, _, _) = stack_of_three();
    for e in 0..cards.len() {
        let card = cards.get(e).unwrap();
        if let Some(parent) = card.stack_parent {
            assert_eq!(cards.get(parent).unwrap().stack_child, Some(e));
        }
        if let Some(child) = card.stack_child {
            assert_eq!(cards.get(child).unwrap().stack_parent, Some(e));
        }
    }
}

#[test]
fn a_stack_is_not_laid_onto_itself() {
    let mut cards = Cards::new();
    let mut roots = StackRoots::new();
    let a = cards.spawn(CardType::Log, at(0, 0, 0));
    let b = cards.spawn(CardType::Log, at(0, 0, 10));
    assert!(card_sim::stack::try_stacking(&mut roots, &mut cards, b, a));
    cards.set_translation(a, at(0, 0, 50));
    collide_cards(
        &vec![Collision { first: a, second: b }, Collision { first: a, second: a }],
        &mut roots,
        &SelectedCard::Nothing,
        &mut cards,
    );
    assert_eq!(cards.get(a).unwrap().stack_parent, None);
    assert_eq!(cards.get(b).unwrap().stack_child, None);
    assert_eq!(find_stack_root(&cards, b), a);
    assert!(!card_sim::stack::try_stacking(&mut roots, &mut cards, a, b));
}

#[test]
fn a_card_that_lies_on_another_is_not_moved() {
    let (mut cards, mut roots, a, b, _) = stack_of_three();
    let d = cards.spawn(CardType::Log, at(0, 0, 0));
    // b is in front of d but already lies on a: nothing happens, not even the other way round
    collide_cards(
        &vec![Collision { first: b, second: d }],
        &mut roots,
        &SelectedCard::Nothing,
        &mut cards,
    );
    assert_eq!(cards.get(b).unwrap().stack_parent, Some(a));
    assert_eq!(cards.get(d).unwrap().stack_parent, None);
    assert_eq!(cards.get(d).unwrap().stack_child, None);
}

#[test]
fn a_held_card_is_not_stacked() {
    let mut cards = Cards::new();
    let mut roots = StackRoots::new();
    let a = cards.spawn(CardType::Log, at(0, 0, 0));
    let b = cards.spawn(CardType::Log, at(0, 0, 10));
    collide_cards(
        &vec![Collision { first: a, second: b }],
        &mut roots,
        &SelectedCard::Card(b),
        &mut cards,
    );
    assert_eq!(cards.get(b).unwrap().stack_parent, None);
    collide_cards(
        &vec![Collision { first: a, second: b }],
        &mut roots,
        &SelectedCard::Card(a),
        &mut cards,
    );
    assert_eq!(cards.get(b).unwrap().stack_parent, None);
    assert_eq!(roots.stack_type(a), None);
}

#[test]
fn enemies_are_not_stacked() {
    let mut cards = Cards::new();
    let mut roots = StackRoots::new();
    let a = cards.spawn(CardType::Villager, at(0, 0, 0));
    let g = cards.spawn(CardType::Goblin, at(0, 0, 10));
    collide_cards(
        &vec![Collision { first: a, second: g }, Collision { first: g, second: a }],
        &mut roots,
        &SelectedCard::Nothing,
        &mut cards,
    );
    assert!(!cards.get(a).unwrap().in_stack());
    assert!(!cards.get(g).unwrap().in_stack());
    assert!(!cards.get(g).unwrap().is_stackable());
    assert!(cards.get(a).unwrap().is_stackable());
}

#[test]
fn cards_at_the_same_depth_take_the_second_as_the_mover() {
    let mut cards = Cards::new();
    let mut roots = StackRoots::new();
    let a = cards.spawn(CardType::Log, at(0, 0, 0));
    let b = cards.spawn(CardType::Log, at(0, 0, 0));
    collide_cards(
        &vec![Collision { first: a, second: b }],
        &mut roots,
        &SelectedCard::Nothing,
        &mut cards,
    );
    assert_eq!(cards.get(b).unwrap().stack_parent, Some(a));
}

#[test]
fn collisions_with_missing_cards_are_ignored() {
    let mut cards = Cards::new();
    let mut roots = StackRoots::new();
    let a = cards.spawn(CardType::Log, at(0, 0, 0));
    collide_cards(
        &vec![Collision { first: a, second: 17 }, Collision { first: 17, second: a }],
        &mut roots,
        &SelectedCard::Nothing,
        &mut cards,
    );
    assert!(!cards.get(a).unwrap().in_stack());
    assert_eq!(find_stack_root(&cards, 17), 17);
    assert_eq!(find_stack_top(&cards, 17), 17);
    assert!(roots.registered().is_empty());
}

#[test]
fn merging_a_registered_stack_queues_it_for_removal() {
    let mut cards = Cards::new();
    let mut bars = ProgressBars::new();
    let mut roots = StackRoots::new();
    let a = cards.spawn(CardType::Villager, at(0, 0, 0));
    let b = cards.spawn(CardType::Villager, at(0, 0, 10));
    let c = cards.spawn(CardType::Log, at(0, 0, -10));
    collide_cards(
        &vec![Collision { first: a, second: b }],
        &mut roots,
        &SelectedCard::Nothing,
        &mut cards,
    );
    evaluate_stacks(&mut bars, 0, &mut roots, &mut cards);
    let bar = match roots.stack_type(a) {
        Some(StackType::Breed { progress_bar }) => progress_bar,
        other => panic!("the stack should breed, but is {:?}", other),
    };
    // the breeding stack is laid onto the log
    collide_cards(
        &vec![Collision { first: a, second: c }],
        &mut roots,
        &SelectedCard::Nothing,
        &mut cards,
    );
    assert_eq!(cards.get(a).unwrap().stack_parent, Some(c));
    assert!(roots.is_queued(a) && roots.is_queued(c));
    evaluate_stacks(&mut bars, 0, &mut roots, &mut cards);
    assert_eq!(roots.stack_type(a), None);
    assert_eq!(roots.stack_type(c), Some(StackType::Nothing));
    assert!(bars.get(bar).is_none());
    for root in roots.registered() {
        assert_eq!(cards.get(root).unwrap().stack_parent, None);
    }
}

#[test]
fn classifying_again_gives_the_same_classification() {
    let mut cards = Cards::new();
    let mut bars = ProgressBars::new();
    let mut roots = StackRoots::new();
    let a = cards.spawn(CardType::Villager, at(0, 0, 0));
    let b = cards.spawn(CardType::Villager, at(0, 0, 10));
    collide_cards(
        &vec![Collision { first: a, second: b }],
        &mut roots,
        &SelectedCard::Nothing,
        &mut cards,
    );
    for _ in 0..3 {
        card_sim::breeding::recompute_stack(b, &mut bars, &mut roots, &cards);
        assert!(matches!(roots.stack_type(a), Some(StackType::Breed { .. })));
        assert_eq!(roots.stack_type(b), None);
    }
    // only the timer of the last classification runs
    assert_eq!(bars.len(), 3);
    assert!(bars.get(0).is_none() && bars.get(1).is_none() && bars.get(2).is_some());
    let (cards, mut roots, a, _, c) = stack_of_three();
    for _ in 0..3 {
        card_sim::breeding::recompute_stack(c, &mut bars, &mut roots, &cards);
        assert_eq!(roots.stack_type(a), Some(StackType::Nothing));
    }
}

#[test]
fn a_villager_and_a_log_do_not_breed() {
    let mut cards = Cards::new();
    let mut bars = ProgressBars::new();
    let mut roots = StackRoots::new();
    let a = cards.spawn(CardType::Villager, at(0, 0, 0));
    let b = cards.spawn(CardType::Log, at(0, 0, 10));
    collide_cards(
        &vec![Collision { first: a, second: b }],
        &mut roots,
        &SelectedCard::Nothing,
        &mut cards,
    );
    evaluate_stacks(&mut bars, 100, &mut roots, &mut cards);
    assert_eq!(roots.stack_type(a), Some(StackType::Nothing));
    assert_eq!(bars.len(), 0);
    let counts = card_sim::stack::get_cards_types(a, &cards);
    assert_eq!(counts.get(CardType::Villager), 1);
    assert_eq!(counts.get(CardType::Log), 1);
    assert_eq!(counts.get(CardType::Goblin), 0);
    assert_eq!(counts.len(), 2);
    assert!(!counts.is_breeding_pair());
    assert_eq!(
        card_sim::stack::stack_kinds(a, &cards),
        vec![CardType::Villager, CardType::Log]
    );
    assert_eq!(card_sim::stack::stack_kinds(b, &cards), vec![CardType::Log]);
}

#[test]
fn three_villagers_do_not_breed() {
    let mut cards = Cards::new();
    let mut bars = ProgressBars::new();
    let mut roots = StackRoots::new();
    let a = cards.spawn(CardType::Villager, at(0, 0, 0));
    let b = cards.spawn(CardType::Villager, at(0, 0, 10));
    let c = cards.spawn(CardType::Villager, at(0, 0, 20));
    collide_cards(
        &vec![Collision { first: a, second: b }, Collision { first: c, second: b }],
        &mut roots,
        &SelectedCard::Nothing,
        &mut cards,
    );
    evaluate_stacks(&mut bars, 100, &mut roots, &mut cards);
    assert_eq!(roots.stack_type(a), Some(StackType::Nothing));
    assert_eq!(roots.stack_type(b), None);
    let counts = card_sim::stack::get_cards_types(a, &cards);
    assert_eq!(counts.get(CardType::Villager), 3);
    assert_eq!(counts.len(), 1);
}

#[test]
fn the_registry_hands_out_what_was_put_in() {
    let mut roots = StackRoots::default();
    assert_eq!(roots.classify(4, StackType::Pending), None);
    assert_eq!(roots.classify(4, StackType::Breed { progress_bar: 2 }), Some(StackType::Pending));
    assert_eq!(roots.classify(9, StackType::Nothing), None);
    assert_eq!(roots.stack_type(4), Some(StackType::Breed { progress_bar: 2 }));
    assert_eq!(roots.stack_type(5), None);
    let mut keys = roots.registered();
    keys.sort();
    assert_eq!(keys, vec![4, 9]);
    assert_eq!(roots.unregister(4), Some(StackType::Breed { progress_bar: 2 }));
    assert_eq!(roots.unregister(4), None);
    assert_eq!(roots.registered(), vec![9]);
    roots.queue(7);
    roots.queue(3);
    roots.queue(7);
    assert!(roots.is_queued(7) && roots.is_queued(3) && !roots.is_queued(4));
    let mut waiting = roots.take_queued();
    waiting.sort();
    assert_eq!(waiting, vec![3, 7]);
    assert!(!roots.is_queued(7));
    assert!(roots.take_queued().is_empty());
}
