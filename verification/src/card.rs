//! Cards: their kinds, their stats, and what each card knows of its place in a stack,
//! in a tile and in a fight.

use crate::geometry::Position;
use crate::timer::Cooldown;
use vstd::prelude::*;
use vstd::std_specs::convert::FromSpecImpl;

verus! {

/// The kinds of card.
#[derive(Clone, Copy, Debug, PartialEq, Eq, Hash, Structural)]
pub enum CardType {
    Villager,
    Log,
    Goblin,
}

/// The side a card is on, which decides how it may be handled.
#[derive(Clone, Copy, Debug, PartialEq, Eq, Structural)]
pub enum CardClass {
    Villager,
    Resource,
    Enemy,
}

/// The numbers of one card.
#[derive(Clone, Copy, Debug, PartialEq, Eq, Structural)]
pub struct CardStats {
    pub health: isize,
    pub max_health: usize,
    pub damage: usize,
}

/// A card's kind together with its present numbers.
#[derive(Clone, Copy, Debug)]
pub struct CardInfo {
    pub card_type: CardType,
    pub stats: CardStats,
}

/// A fight in progress: whom the card strikes, and the countdown to its next blow.
#[derive(Clone, Copy, Debug)]
pub struct CombatState {
    cooldown: Cooldown,
    target: usize,
}

/// A card on the table.
#[derive(Clone, Copy, Debug)]
pub struct Card {
    pub info: CardInfo,
    /// Where the card lies.
    pub translation: Position,
    pub combat_state: Option<CombatState>,
    /// The card this one lies on, if it is stacked on another.
    pub stack_parent: Option<usize>,
    /// The card that lies on this one, if any.
    pub stack_child: Option<usize>,
    /// The tile whose slot holds this card, if any.
    pub slotted_in_tile: Option<usize>,
}

/// The card that the player holds, if any.
#[derive(Clone, Copy, Debug, PartialEq, Eq, Structural)]
pub enum SelectedCard {
    Card(usize),
    Nothing,
}

/// The point of the table under the pointer, if the pointer is over the table.
#[derive(Clone, Copy, Debug, PartialEq, Eq, Structural)]
pub enum HoverPoint {
    Point(Position),
    Nothing,
}

impl CardType {
    pub open spec fn class_spec(self) -> CardClass {
        match self {
            CardType::Villager => CardClass::Villager,
            CardType::Log => CardClass::Resource,
            CardType::Goblin => CardClass::Enemy,
        }
    }

    /// The numbers a card of this kind starts with.
    pub open spec fn initial_stats(self) -> CardStats {
        match self {
            CardType::Villager => CardStats { health: 3, max_health: 3, damage: 1 },
            CardType::Goblin => CardStats { health: 1, max_health: 1, damage: 1 },
            CardType::Log => CardStats { health: 0, max_health: 0, damage: 0 },
        }
    }

    /// The side that cards of this kind are on.
    pub fn class(&self) -> (class: CardClass)
        ensures
            class == self.class_spec(),
    {
        match self {
            CardType::Villager => CardClass::Villager,
            CardType::Log => CardClass::Resource,
            CardType::Goblin => CardClass::Enemy,
        }
    }

    /// The numbers a card of this kind starts with.
    pub fn get_initial_stats(&self) -> (stats: CardStats)
        ensures
            stats == self.initial_stats(),
    {
        match self {
            CardType::Villager => CardStats { health: 3, max_health: 3, damage: 1 },
            CardType::Goblin => CardStats { health: 1, max_health: 1, damage: 1 },
            _ => CardStats { health: 0, max_health: 0, damage: 0 },
        }
    }
}

impl Default for CardType {
    fn default() -> (card_type: CardType)
        ensures
            card_type == CardType::Villager,
    {
        CardType::Villager
    }
}

impl CardStats {
    /// The health left of `health` after a blow of `damage`: never below zero.
    pub open spec fn health_after(health: int, damage: int) -> int {
        if health - damage > 0 {
            health - damage
        } else {
            0
        }
    }

    /// These numbers after a blow of `damage`.
    pub open spec fn damaged(self, damage: usize) -> CardStats {
        CardStats {
            health: Self::health_after(self.health as int, damage as int) as isize,
            max_health: self.max_health,
            damage: self.damage,
        }
    }

    /// Whether heart number `heart` of a card with these numbers is full: as many hearts
    /// are full as the card has health.
    pub fn heart_is_full(&self, heart: usize) -> (full: bool)
        ensures
            full == (heart < self.health),
    {
        self.health > 0 && heart < self.health as usize
    }

    /// Takes a blow of `damage`: health goes down by it, and stops at zero.
    pub fn take_damage(&mut self, damage: usize)
        ensures
            *final(self) == old(self).damaged(damage),
            final(self).health == Self::health_after(old(self).health as int, damage as int),
            final(self).health >= 0,
    {
        if self.health <= 0 {
            self.health = 0;
        } else if damage >= self.health as usize {
            self.health = 0;
        } else {
            self.health = self.health - damage as isize;
        }
    }
}

impl CardInfo {
    /// What a fresh card of the given kind holds.
    pub open spec fn of(card_type: CardType) -> CardInfo {
        CardInfo { card_type, stats: card_type.initial_stats() }
    }
}

impl From<CardType> for CardInfo {
    fn from(card_type: CardType) -> (info: CardInfo) {
        let stats = card_type.get_initial_stats();
        CardInfo { card_type, stats }
    }
}

impl FromSpecImpl<CardType> for CardInfo {
    open spec fn obeys_from_spec() -> bool {
        true
    }

    open spec fn from_spec(card_type: CardType) -> CardInfo {
        CardInfo::of(card_type)
    }
}

impl Default for CardInfo {
    fn default() -> (info: CardInfo)
        ensures
            info == CardInfo::of(CardType::Villager),
    {
        CardInfo::from(CardType::Villager)
    }
}

impl CombatState {
    /// The cooldown of an attacker that has come within reach, in milliseconds.
    pub const ATTACK_COOLDOWN: u32 = 1000;

    /// The cooldown of a card that strikes back, in milliseconds: defenders are a little
    /// faster than those who set upon them.
    pub const RETALIATION_COOLDOWN: u32 = 900;

    /// A fight with `target`, the first blow due after `cooldown` milliseconds.
    pub fn new(cooldown: u32, target: usize) -> (state: CombatState)
        ensures
            state.wf(),
            state.target_spec() == target,
            state.cooldown_spec().duration_spec() == cooldown,
            state.cooldown_spec().elapsed_spec() == 0,
            state == CombatState::engaging(cooldown, target),
    {
        CombatState { cooldown: Cooldown::repeating(cooldown), target }
    }

    /// The state that [`CombatState::new`] builds.
    pub closed spec fn engaging(cooldown: u32, target: usize) -> CombatState {
        CombatState { cooldown: Cooldown::fresh(cooldown), target }
    }

    pub closed spec fn wf(self) -> bool {
        self.cooldown.wf()
    }

    pub closed spec fn target_spec(self) -> usize {
        self.target
    }

    pub closed spec fn cooldown_spec(self) -> Cooldown {
        self.cooldown
    }

    /// This fight after `delta` more milliseconds.
    pub closed spec fn after(self, delta: nat) -> CombatState {
        CombatState { cooldown: self.cooldown.after(delta), target: self.target }
    }

    /// What [`CombatState::after`] leaves: the same target, the cooldown advanced.
    pub proof fn lemma_after(self, delta: nat)
        requires
            self.wf(),
        ensures
            self.after(delta).wf(),
            self.after(delta).target_spec() == self.target_spec(),
            self.after(delta).cooldown_spec() == self.cooldown_spec().after(delta),
    {
        self.cooldown.lemma_after(delta);
    }

    /// What [`CombatState::engaging`] holds.
    pub proof fn lemma_engaging(cooldown: u32, target: usize)
        ensures
            CombatState::engaging(cooldown, target).wf(),
            CombatState::engaging(cooldown, target).target_spec() == target,
            CombatState::engaging(cooldown, target).cooldown_spec() == Cooldown::fresh(cooldown),
    {
        Cooldown::lemma_fresh(cooldown);
    }

    /// The card under attack.
    pub fn target(&self) -> (target: usize)
        ensures
            target == self.target_spec(),
    {
        self.target
    }

    /// The countdown to the next blow.
    pub fn cooldown(&self) -> (cooldown: Cooldown)
        ensures
            cooldown == self.cooldown_spec(),
    {
        self.cooldown
    }

    /// Advances the countdown by `delta` milliseconds and tells whether a blow is due.
    pub fn tick(&mut self, delta: u32) -> (fired: bool)
        requires
            old(self).wf(),
        ensures
            *final(self) == old(self).after(delta as nat),
            final(self).wf(),
            fired == old(self).cooldown_spec().fires(delta as nat),
    {
        self.cooldown.tick(delta)
    }
}

impl Card {
    /// How far from its source a newly made card is laid down, in position steps.
    pub const SPAWN_OFFSET: i32 = 1000;

    /// A fresh card of the given kind: at the origin, unstacked, unslotted, at peace.
    pub open spec fn of(card_type: CardType) -> Card {
        Card {
            info: CardInfo::of(card_type),
            translation: Position { x: 0, y: 0, z: 0 },
            combat_state: None,
            stack_parent: None,
            stack_child: None,
            slotted_in_tile: None,
        }
    }

    pub open spec fn class_spec(self) -> CardClass {
        self.info.card_type.class_spec()
    }

    /// A card can be stacked unless a tile holds it or it is an enemy.
    pub open spec fn stackable(self) -> bool {
        self.slotted_in_tile is None && self.class_spec() != CardClass::Enemy
    }

    /// The player moves villagers and resources, never enemies.
    pub open spec fn player_controlled(self) -> bool {
        self.class_spec() != CardClass::Enemy
    }

    pub open spec fn stacked(self) -> bool {
        self.stack_parent is Some || self.stack_child is Some
    }

    /// A card is sound in itself when its fight, if it is in one, has a sound countdown,
    /// and when it is not at once in a slot and in a stack.
    pub open spec fn sound(self) -> bool {
        &&& self.combat_state matches Some(state) ==> state.wf()
        &&& self.slotted_in_tile is Some ==> !self.stacked()
    }

    /// The kind of this card.
    pub fn card_type(&self) -> (card_type: CardType)
        ensures
            card_type == self.info.card_type,
    {
        self.info.card_type
    }

    /// The side this card is on.
    pub fn class(&self) -> (class: CardClass)
        ensures
            class == self.class_spec(),
    {
        self.info.card_type.class()
    }

    /// Whether this card may take part in a stack.
    pub fn is_stackable(&self) -> (stackable: bool)
        ensures
            stackable == self.stackable(),
    {
        self.slotted_in_tile.is_none() && !(self.class() == CardClass::Enemy)
    }

    /// Whether the player may pick this card up.
    pub fn is_player_controlled(&self) -> (controlled: bool)
        ensures
            controlled == self.player_controlled(),
    {
        match self.class() {
            CardClass::Villager => true,
            CardClass::Resource => true,
            CardClass::Enemy => false,
        }
    }

    /// Whether this card lies on another or carries one.
    pub fn in_stack(&self) -> (stacked: bool)
        ensures
            stacked == self.stacked(),
    {
        self.stack_parent.is_some() || self.stack_child.is_some()
    }
}

impl From<CardType> for Card {
    fn from(card_type: CardType) -> (card: Card) {
        Card {
            info: CardInfo::from(card_type),
            translation: Position::origin(),
            combat_state: None,
            stack_parent: None,
            stack_child: None,
            slotted_in_tile: None,
        }
    }
}

impl FromSpecImpl<CardType> for Card {
    open spec fn obeys_from_spec() -> bool {
        true
    }

    open spec fn from_spec(card_type: CardType) -> Card {
        Card::of(card_type)
    }
}

impl Default for Card {
    fn default() -> (card: Card)
        ensures
            card == Card::of(CardType::Villager),
    {
        Card::from(CardType::Villager)
    }
}

impl SelectedCard {
    /// Whether `entity` is the card in the player's hand.
    pub open spec fn holds(self, entity: usize) -> bool {
        self == SelectedCard::Card(entity)
    }

    /// Whether `entity` is the card in the player's hand.
    pub fn is_selected(self, entity: usize) -> (held: bool)
        ensures
            held == self.holds(entity),
    {
        match self {
            SelectedCard::Card(e) => e == entity,
            SelectedCard::Nothing => false,
        }
    }
}

impl Default for SelectedCard {
    fn default() -> (selected: SelectedCard)
        ensures
            selected == SelectedCard::Nothing,
    {
        SelectedCard::Nothing
    }
}

impl Default for HoverPoint {
    fn default() -> (point: HoverPoint)
        ensures
            point == HoverPoint::Nothing,
    {
        HoverPoint::Nothing
    }
}

} // verus!
