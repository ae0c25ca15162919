//! Combat: enemies choose the nearest villager, walk up to it, and trade blows with it
//! until one of the two is gone.

use crate::card::{Card, CardClass, CardInfo, CombatState};
use crate::cards::{cards_sound, Cards};
use crate::chain::{
    child_of, forest, keeps_links, keeps_slots, lemma_keeps_links_forest,
    lemma_keeps_links_twice, lemma_keeps_slots_twice, lemma_same_keeps_links, live, parent_of,
    same_cards, same_links,
};
use crate::geometry::Position;
use vstd::prelude::*;

verus! {

/// How close an attacker must be to strike, in position steps.
pub const STRIKE_RANGE: u32 = 1000;

/// How many position steps an attacker walks in a millisecond.
pub const APPROACH_SPEED: u32 = 1;

/// Whether `e` is a card that enemies set upon: a villager on the table.
pub open spec fn friendly(cards: Seq<Option<Card>>, e: usize) -> bool {
    live(cards, e) && cards[e as int]->0.class_spec() == CardClass::Villager
}

/// Whether `e` is an enemy on the table that is not in a fight.
pub open spec fn prowling(cards: Seq<Option<Card>>, e: usize) -> bool {
    live(cards, e) && cards[e as int]->0.class_spec() == CardClass::Enemy
        && cards[e as int]->0.combat_state is None
}

/// The square of the distance from `from` to the card `e`.
pub open spec fn distance_to(cards: Seq<Option<Card>>, from: Position, e: usize) -> nat {
    from.distance_squared_spec(cards[e as int]->0.translation)
}

/// Whether `t` is the villager that is nearest to `from`: no villager is nearer, and of
/// the villagers that are as near, `t` has the lowest identity.
pub open spec fn is_nearest(cards: Seq<Option<Card>>, from: Position, t: usize) -> bool {
    &&& friendly(cards, t)
    &&& forall|v: usize| #[trigger]
        friendly(cards, v) ==> distance_to(cards, from, t) <= distance_to(cards, from, v) && (v
            < t ==> distance_to(cards, from, t) < distance_to(cards, from, v))
}

/// The villager that is nearest to `from`, if there is any villager.
pub open spec fn nearest_villager(cards: Seq<Option<Card>>, from: Position) -> Option<usize> {
    if exists|t: usize| is_nearest(cards, from, t) {
        Some(choose|t: usize| is_nearest(cards, from, t))
    } else {
        None
    }
}

/// There is at most one nearest villager.
pub proof fn lemma_nearest_unique(cards: Seq<Option<Card>>, from: Position, t: usize, u: usize)
    requires
        is_nearest(cards, from, t),
        is_nearest(cards, from, u),
    ensures
        t == u,
{
    assert(friendly(cards, t));
    assert(friendly(cards, u));
}

/// The nearest villager is `t` once `t` is known to be a nearest villager.
pub proof fn lemma_nearest_is(cards: Seq<Option<Card>>, from: Position, t: usize)
    requires
        is_nearest(cards, from, t),
    ensures
        nearest_villager(cards, from) == Some(t),
{
    let u = choose|u: usize| is_nearest(cards, from, u);
    lemma_nearest_unique(cards, from, t, u);
}

/// Whether the villagers are the same cards at the same places in both.
pub open spec fn same_villagers(before: Seq<Option<Card>>, after: Seq<Option<Card>>) -> bool {
    forall|e: usize|
        #![trigger friendly(after, e)]
        #![trigger friendly(before, e)]
        friendly(after, e) == friendly(before, e) && (friendly(before, e) ==> after[e as int]->0.translation
            == before[e as int]->0.translation)
}

/// Where the villagers are the same, the nearest villager is the same.
pub proof fn lemma_same_nearest(
    before: Seq<Option<Card>>,
    after: Seq<Option<Card>>,
    from: Position,
)
    requires
        same_villagers(before, after),
    ensures
        nearest_villager(after, from) == nearest_villager(before, from),
{
    if exists|t: usize| is_nearest(before, from, t) {
        let t = choose|t: usize| is_nearest(before, from, t);
        assert(friendly(after, t));
        assert forall|v: usize| #[trigger] friendly(after, v) implies distance_to(after, from, t)
            <= distance_to(after, from, v) && (v < t ==> distance_to(after, from, t) < distance_to(
            after,
            from,
            v,
        )) by {
            assert(friendly(before, v));
        }
        lemma_nearest_is(after, from, t);
    } else if exists|t: usize| is_nearest(after, from, t) {
        let t = choose|t: usize| is_nearest(after, from, t);
        assert(friendly(before, t));
        assert forall|v: usize| #[trigger] friendly(before, v) implies distance_to(before, from, t)
            <= distance_to(before, from, v) && (v < t ==> distance_to(before, from, t)
            < distance_to(before, from, v)) by {
            assert(friendly(after, v));
        }
        assert(is_nearest(before, from, t));
    }
}

/// Finds the villager that is nearest to `from`.
pub fn find_target(cards: &Cards, from: &Position) -> (target: Option<usize>)
    ensures
        target == nearest_villager(cards@, *from),
{
    let mut best: Option<(usize, u128)> = None;
    let mut i: usize = 0;
    while i < cards.len()
        invariant
            i <= cards@.len(),
            match best {
                Some((t, d)) => {
                    &&& t < i
                    &&& friendly(cards@, t)
                    &&& d == distance_to(cards@, *from, t)
                    &&& forall|v: usize| #[trigger]
                        friendly(cards@, v) && v < i ==> d <= distance_to(cards@, *from, v) && (v
                            < t ==> d < distance_to(cards@, *from, v))
                },
                None => forall|v: usize| #[trigger] friendly(cards@, v) ==> v >= i,
            },
        decreases cards@.len() - i,
    {
        if let Some(card) = cards.get(i) {
            if card.class() == CardClass::Villager {
                let d = from.distance_squared(&card.translation);
                match best {
                    Some((_, nearest)) => {
                        if nearest > d {
                            best = Some((i, d));
                        }
                    },
                    None => {
                        best = Some((i, d));
                    },
                }
            }
        }
        i = i + 1;
    }
    match best {
        Some((t, _)) => {
            proof {
                lemma_nearest_is(cards@, *from, t);
            }
            Some(t)
        },
        None => {
            assert forall|t: usize| !is_nearest(cards@, *from, t) by {
                if friendly(cards@, t) {
                }
            }
            None
        },
    }
}

/// What becomes of the card `e` when the enemies move for `delta` milliseconds. Only an
/// enemy that is not in a fight is affected, and only if there is a villager. It chooses
/// the nearest villager. If that villager is out of reach, the enemy walks towards it and
/// stays out of a fight; if it is within reach, the enemy begins a fight with it.
pub open spec fn pursued(cards: Seq<Option<Card>>, e: usize, delta: u32) -> Option<Card> {
    if prowling(cards, e) {
        let card = cards[e as int]->0;
        match nearest_villager(cards, card.translation) {
            Some(target) => {
                let goal = cards[target as int]->0.translation;
                if card.translation.distance_squared_spec(goal) > STRIKE_RANGE * STRIKE_RANGE {
                    Some(
                        Card {
                            translation: card.translation.step_toward_spec(
                                goal,
                                (delta as nat) * (APPROACH_SPEED as nat),
                            ),
                            combat_state: None,
                            ..card
                        },
                    )
                } else {
                    Some(
                        Card {
                            combat_state: Some(
                                CombatState::engaging(CombatState::ATTACK_COOLDOWN, target),
                            ),
                            ..card
                        },
                    )
                }
            },
            None => cards[e as int],
        }
    } else {
        cards[e as int]
    }
}

/// The cards after the enemies moved for `delta` milliseconds.
pub open spec fn after_pursuit(cards: Seq<Option<Card>>, delta: u32) -> Seq<Option<Card>> {
    Seq::new(cards.len(), |e: int| pursued(cards, e as usize, delta))
}

/// Whether `after` arises from `before` by changes to enemies only that leave each of
/// them on the table, of its kind, and at its place in its stack and in its slot.
pub open spec fn enemies_moved(before: Seq<Option<Card>>, after: Seq<Option<Card>>) -> bool {
    &&& before.len() == after.len()
    &&& forall|e: usize| #[trigger] live(after, e) == live(before, e)
    &&& forall|e: usize| #[trigger]
        live(before, e) ==> {
            let was = before[e as int]->0;
            let is = after[e as int]->0;
            &&& is.stack_parent == was.stack_parent
            &&& is.stack_child == was.stack_child
            &&& is.slotted_in_tile == was.slotted_in_tile
            &&& is.info == was.info
            &&& was.class_spec() != CardClass::Enemy ==> is == was
        }
}

/// What a change to enemies only leaves alone: the villagers, the stacks, the slots.
pub proof fn lemma_enemies_moved(before: Seq<Option<Card>>, after: Seq<Option<Card>>)
    requires
        enemies_moved(before, after),
    ensures
        same_villagers(before, after),
        same_links(before, after),
        same_cards(before, after),
        keeps_links(before, after),
        keeps_slots(before, after),
{
    assert forall|e: usize|
        #![trigger friendly(after, e)]
        #![trigger friendly(before, e)]
        friendly(after, e) == friendly(before, e) && (friendly(before, e) ==> after[e as int]->0.translation
            == before[e as int]->0.translation) by {
        assert(live(after, e) == live(before, e));
        if live(before, e) {
        }
    }
    assert forall|e: usize|
        #![trigger parent_of(after, e)]
        #![trigger child_of(after, e)]
        parent_of(after, e) == parent_of(before, e)
            && child_of(after, e) == child_of(before, e) by {
        assert(live(after, e) == live(before, e));
        if live(before, e) {
        }
    }
    lemma_same_keeps_links(before, after);
    assert forall|e: usize| #[trigger] live(after, e) implies {
        &&& live(before, e) ==> after[e as int]->0.slotted_in_tile
            == before[e as int]->0.slotted_in_tile
        &&& !live(before, e) ==> e >= before.len() && after[e as int]->0.slotted_in_tile is None
    } by {
        assert(live(after, e) == live(before, e));
        assert(live(before, e));
    }
}

/// Two changes to enemies only are one.
pub proof fn lemma_enemies_moved_twice(
    first: Seq<Option<Card>>,
    second: Seq<Option<Card>>,
    third: Seq<Option<Card>>,
)
    requires
        enemies_moved(first, second),
        enemies_moved(second, third),
    ensures
        enemies_moved(first, third),
{
    assert forall|e: usize| #[trigger] live(third, e) == live(first, e) by {
        assert(live(third, e) == live(second, e));
        assert(live(second, e) == live(first, e));
    }
    assert forall|e: usize| #[trigger] live(first, e) implies {
        let was = first[e as int]->0;
        let is = third[e as int]->0;
        &&& is.stack_parent == was.stack_parent
        &&& is.stack_child == was.stack_child
        &&& is.slotted_in_tile == was.slotted_in_tile
        &&& is.info == was.info
        &&& was.class_spec() != CardClass::Enemy ==> is == was
    } by {
        assert(live(second, e) == live(first, e));
        assert(live(second, e));
    }
}

/// Moves the card `entity` as an enemy: if it is an enemy that is not in a fight, it
/// chooses the nearest villager and walks towards it, or begins a fight with it once it
/// is within reach.
pub fn pursue(entity: usize, delta: u32, cards: &mut Cards)
    requires
        old(cards).wf(),
    ensures
        final(cards).wf(),
        enemies_moved(old(cards)@, final(cards)@),
        entity < old(cards)@.len() ==> final(cards)@ == old(cards)@.update(
            entity as int,
            pursued(old(cards)@, entity, delta),
        ),
        entity >= old(cards)@.len() ==> final(cards)@ == old(cards)@,
{
    if let Some(card) = cards.get(entity) {
        if card.combat_state.is_none() && card.class() == CardClass::Enemy {
            if let Some(target) = find_target(cards, &card.translation) {
                assert(friendly(cards@, target));
                let goal = match cards.get(target) {
                    Some(target_card) => target_card.translation,
                    None => card.translation,
                };
                let moved = if card.translation.distance_squared(&goal) > (STRIKE_RANGE as u128)
                    * (STRIKE_RANGE as u128) {
                    Card {
                        translation: card.translation.step_toward(&goal, delta * APPROACH_SPEED),
                        combat_state: None,
                        ..card
                    }
                } else {
                    Card {
                        combat_state: Some(CombatState::new(CombatState::ATTACK_COOLDOWN, target)),
                        ..card
                    }
                };
                proof {
                    lemma_changed_sound(cards@, entity, moved);
                }
                cards.replace(entity, moved);
                assert(cards@ =~= old(cards)@.update(
                    entity as int,
                    pursued(old(cards)@, entity, delta),
                ));
                return ;
            }
        }
    }
    assert(entity < cards@.len() ==> cards@ =~= old(cards)@.update(
        entity as int,
        pursued(old(cards)@, entity, delta),
    ));
}

/// Moves the enemies: each enemy that is not in a fight chooses the nearest villager and
/// walks towards it, or begins a fight with it once it is within reach.
pub fn handle_enemies(delta: u32, cards: &mut Cards)
    requires
        old(cards).wf(),
    ensures
        final(cards)@ == after_pursuit(old(cards)@, delta),
        final(cards).wf(),
        enemies_moved(old(cards)@, final(cards)@),
        same_links(old(cards)@, final(cards)@),
        same_cards(old(cards)@, final(cards)@),
        keeps_links(old(cards)@, final(cards)@),
        keeps_slots(old(cards)@, final(cards)@),
{
    let mut i: usize = 0;
    let n = cards.len();
    while i < n
        invariant
            i <= n,
            n == old(cards)@.len(),
            cards@.len() == n,
            cards.wf(),
            forall|e: int| 0 <= e < i ==> cards@[e] == pursued(old(cards)@, e as usize, delta),
            forall|e: int| i <= e < n ==> cards@[e] == old(cards)@[e],
            enemies_moved(old(cards)@, cards@),
        decreases n - i,
    {
        let ghost before = cards@;
        proof {
            lemma_pursued_same(old(cards)@, before, i, delta);
        }
        pursue(i, delta, cards);
        proof {
            lemma_enemies_moved_twice(old(cards)@, before, cards@);
        }
        i = i + 1;
    }
    assert(cards@ =~= after_pursuit(old(cards)@, delta));
    proof {
        lemma_enemies_moved(old(cards)@, cards@);
    }
}

/// What becomes of an enemy does not depend on what became of other enemies before.
pub proof fn lemma_pursued_same(
    before: Seq<Option<Card>>,
    after: Seq<Option<Card>>,
    e: usize,
    delta: u32,
)
    requires
        enemies_moved(before, after),
        e < before.len(),
        after[e as int] == before[e as int],
    ensures
        pursued(after, e, delta) == pursued(before, e, delta),
{
    lemma_enemies_moved(before, after);
    assert(live(after, e) == live(before, e));
    if prowling(before, e) {
        let card = before[e as int]->0;
        lemma_same_nearest(before, after, card.translation);
        match nearest_villager(before, card.translation) {
            Some(target) => {
                if exists|t: usize| is_nearest(before, card.translation, t) {
                    assert(is_nearest(before, card.translation, target));
                    assert(friendly(before, target));
                }
            },
            None => {},
        }
    }
}

/// The cards after the card `attacker` dealt a blow of `damage` to `target`. If the
/// target is on the table, its health goes down by the damage and stops at zero. A target
/// left with no health leaves the table, and the attacker is out of the fight. A target
/// that lives on and was not in a fight begins one with the attacker. If the target is
/// not on the table, no blow is dealt and the attacker is out of the fight.
pub open spec fn struck(
    cards: Seq<Option<Card>>,
    attacker: usize,
    target: usize,
    damage: usize,
) -> Seq<Option<Card>> {
    if !live(cards, attacker) {
        cards
    } else if live(cards, target) && target != attacker {
        let hit = cards[target as int]->0;
        let stats = hit.info.stats.damaged(damage);
        if stats.health == 0 {
            cards.update(
                attacker as int,
                Some(Card { combat_state: None, ..cards[attacker as int]->0 }),
            ).update(target as int, None)
        } else {
            cards.update(
                target as int,
                Some(
                    Card {
                        info: CardInfo { card_type: hit.info.card_type, stats },
                        combat_state: if hit.combat_state is None {
                            Some(CombatState::engaging(CombatState::RETALIATION_COOLDOWN, attacker))
                        } else {
                            hit.combat_state
                        },
                        ..hit
                    },
                ),
            )
        }
    } else {
        cards.update(attacker as int, Some(Card { combat_state: None, ..cards[attacker as int]->0 }))
    }
}

/// The cards after the card `e` fought for `delta` milliseconds. Only a card in a fight
/// is affected: its countdown advances, and when the countdown fires the card deals a
/// blow of its damage to its target.
pub open spec fn fought(cards: Seq<Option<Card>>, e: usize, delta: u32) -> Seq<Option<Card>> {
    if live(cards, e) {
        let card = cards[e as int]->0;
        match card.combat_state {
            Some(state) => {
                let waited = cards.update(
                    e as int,
                    Some(Card { combat_state: Some(state.after(delta as nat)), ..card }),
                );
                if state.cooldown_spec().fires(delta as nat) {
                    struck(waited, e, state.target_spec(), card.info.stats.damage)
                } else {
                    waited
                }
            },
            None => cards,
        }
    } else {
        cards
    }
}

/// The cards after each of the first `n` identities fought for `delta` milliseconds, in
/// turn.
pub open spec fn fought_through(cards: Seq<Option<Card>>, n: nat, delta: u32) -> Seq<Option<Card>>
    decreases n,
{
    if n == 0 {
        cards
    } else {
        fought(fought_through(cards, (n - 1) as nat, delta), (n - 1) as usize, delta)
    }
}

/// The card `attacker` deals a blow of `damage` to `target`.
pub fn strike(attacker: usize, target: usize, damage: usize, cards: &mut Cards)
    requires
        old(cards).wf(),
    ensures
        final(cards)@ == struck(old(cards)@, attacker, target, damage),
        final(cards).wf(),
        keeps_links(old(cards)@, final(cards)@),
        keeps_slots(old(cards)@, final(cards)@),
{
    let attacker_card = match cards.get(attacker) {
        Some(card) => card,
        None => {
            return ;
        },
    };
    let ghost before = cards@;
    match cards.get(target) {
        Some(target_card) => {
            if target != attacker {
                let mut stats = target_card.info.stats;
                stats.take_damage(damage);
                if stats.health == 0 {
                    proof {
                        lemma_changed_sound(
                            before,
                            attacker,
                            Card { combat_state: None, ..attacker_card },
                        );
                    }
                    cards.replace(attacker, Card { combat_state: None, ..attacker_card });
                    cards.remove(target);
                } else {
                    let combat_state = if target_card.combat_state.is_none() {
                        Some(CombatState::new(CombatState::RETALIATION_COOLDOWN, attacker))
                    } else {
                        target_card.combat_state
                    };
                    let changed = Card {
                        info: CardInfo { card_type: target_card.info.card_type, stats },
                        combat_state,
                        ..target_card
                    };
                    proof {
                        assert(live(before, target));
                        lemma_changed_sound(before, target, changed);
                    }
                    cards.replace(target, changed);
                }
                return ;
            }
        },
        None => {},
    }
    proof {
        lemma_changed_sound(before, attacker, Card { combat_state: None, ..attacker_card });
    }
    cards.replace(attacker, Card { combat_state: None, ..attacker_card });
}

/// Cards that were well formed stay so when one card is changed in a way that leaves its
/// place in its stack and in its slot alone and its fight sound.
pub proof fn lemma_changed_sound(before: Seq<Option<Card>>, e: usize, card: Card)
    requires
        forest(before),
        cards_sound(before),
        live(before, e),
        card.stack_parent == before[e as int]->0.stack_parent,
        card.stack_child == before[e as int]->0.stack_child,
        card.slotted_in_tile == before[e as int]->0.slotted_in_tile,
        card.combat_state matches Some(state) ==> state.wf(),
    ensures
        forest(before.update(e as int, Some(card))),
        cards_sound(before.update(e as int, Some(card))),
{
    let after = before.update(e as int, Some(card));
    assert forall|k: usize| #[trigger] live(after, k) implies {
        &&& live(before, k) ==> parent_of(after, k) == parent_of(
            before,
            k,
        ) && child_of(after, k) == child_of(before, k)
        &&& !live(before, k) ==> k >= before.len() && parent_of(after, k) is None
            && child_of(after, k) is None
    } by {
        assert(live(before, k));
    }
    lemma_keeps_links_forest(before, after);
    assert forall|k: usize| #[trigger] live(after, k) implies after[k as int]->0.sound() by {
        assert(live(before, k));
    }
}

/// The card `entity` fights for `delta` milliseconds.
pub fn fight(entity: usize, delta: u32, cards: &mut Cards)
    requires
        old(cards).wf(),
    ensures
        final(cards)@ == fought(old(cards)@, entity, delta),
        final(cards).wf(),
        keeps_links(old(cards)@, final(cards)@),
        keeps_slots(old(cards)@, final(cards)@),
{
    if let Some(card) = cards.get(entity) {
        if let Some(mut combat_state) = card.combat_state {
            let ghost state = combat_state;
            let fired = combat_state.tick(delta);
            let ghost before = cards@;
            proof {
                assert(live(before, entity));
                lemma_changed_sound(
                    before,
                    entity,
                    Card { combat_state: Some(combat_state), ..card },
                );
            }
            cards.replace(entity, Card { combat_state: Some(combat_state), ..card });
            let ghost waited = cards@;
            if fired {
                strike(entity, combat_state.target(), card.info.stats.damage, cards);
                proof {
                    state.lemma_after(delta as nat);
                    lemma_keeps_links_twice(before, waited, cards@);
                    lemma_keeps_slots_twice(before, waited, cards@);
                }
            }
        }
    }
}

/// Lets every card that is in a fight fight for `delta` milliseconds, in the order of
/// the identities.
pub fn combat(delta: u32, cards: &mut Cards)
    requires
        old(cards).wf(),
    ensures
        final(cards)@ == fought_through(old(cards)@, old(cards)@.len(), delta),
        final(cards).wf(),
        keeps_links(old(cards)@, final(cards)@),
        keeps_slots(old(cards)@, final(cards)@),
{
    let mut i: usize = 0;
    let n = cards.len();
    while i < n
        invariant
            i <= n,
            n == old(cards)@.len(),
            cards@.len() == n,
            cards.wf(),
            cards@ == fought_through(old(cards)@, i as nat, delta),
            keeps_links(old(cards)@, cards@),
            keeps_slots(old(cards)@, cards@),
        decreases n - i,
    {
        let ghost before = cards@;
        fight(i, delta, cards);
        proof {
            lemma_keeps_links_twice(old(cards)@, before, cards@);
            lemma_keeps_slots_twice(old(cards)@, before, cards@);
        }
        i = i + 1;
    }
}

} // verus!
