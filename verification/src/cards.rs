//! The cards on the table, each under a lasting identity.

use crate::card::{Card, CardInfo, CardType};
use crate::chain::{forest, lemma_keeps_links_forest, live, ranked};
use crate::geometry::Position;
use vstd::prelude::*;

verus! {

/// The cards on the table. A card's identity is the number under which it was spawned;
/// the identity of a card that has left the table is never given out again.
pub struct Cards {
    slots: Vec<Option<Card>>,
}

impl View for Cards {
    type V = Seq<Option<Card>>;

    closed spec fn view(&self) -> Seq<Option<Card>> {
        self.slots@
    }
}

/// Whether every card among `cards` is sound in itself.
pub open spec fn cards_sound(cards: Seq<Option<Card>>) -> bool {
    forall|e: usize| #[trigger]
        live(cards, e) ==> cards[e as int]->0.sound()
}

impl Cards {
    /// The cards are well formed when their stacks form a forest and every card is sound
    /// in itself.
    pub open spec fn wf(&self) -> bool {
        forest(self@) && cards_sound(self@)
    }

    /// A table without cards.
    pub fn new() -> (cards: Cards)
        ensures
            cards@ == Seq::<Option<Card>>::empty(),
            cards.wf(),
    {
        let cards = Cards { slots: Vec::new() };
        proof {
            assert(ranked(cards@, Seq::<nat>::empty(), 0));
        }
        cards
    }

    /// How many identities have been given out so far.
    pub fn len(&self) -> (n: usize)
        ensures
            n == self@.len(),
    {
        self.slots.len()
    }

    /// The card under the identity `entity`, if it is on the table.
    pub fn get(&self, entity: usize) -> (card: Option<Card>)
        ensures
            card == (if live(self@, entity) {
                self@[entity as int]
            } else {
                None
            }),
    {
        if entity < self.slots.len() {
            self.slots[entity]
        } else {
            None
        }
    }

    /// Lays a fresh card of the given kind at `translation` and returns its identity.
    pub fn spawn(&mut self, card_type: CardType, translation: Position) -> (entity: usize)
        requires
            old(self).wf(),
        ensures
            entity == old(self)@.len(),
            final(self)@ == old(self)@.push(Some(Card { translation, ..Card::of(card_type) })),
            final(self).wf(),
    {
        let entity = self.slots.len();
        let card = Card {
            info: CardInfo::from(card_type),
            translation,
            combat_state: None,
            stack_parent: None,
            stack_child: None,
            slotted_in_tile: None,
        };
        self.slots.push(Some(card));
        proof {
            lemma_keeps_links_forest(old(self)@, self@);
            assert forall|e: usize| #[trigger] live(self@, e) implies self@[e as int]->0.sound() by {
                if live(old(self)@, e) {
                }
            }
        }
        entity
    }

    /// Puts `card` in the place of the card under `entity`.
    pub(crate) fn replace(&mut self, entity: usize, card: Card)
        requires
            live(old(self)@, entity),
        ensures
            final(self)@ == old(self)@.update(entity as int, Some(card)),
    {
        self.slots[entity] = Some(card);
    }

    /// Takes the card under `entity` off the table.
    pub(crate) fn remove(&mut self, entity: usize)
        requires
            live(old(self)@, entity),
            old(self).wf(),
        ensures
            final(self)@ == old(self)@.update(entity as int, None),
            final(self).wf(),
    {
        self.slots[entity] = None;
        proof {
            lemma_keeps_links_forest(old(self)@, self@);
            assert forall|e: usize| #[trigger] live(self@, e) implies self@[e as int]->0.sound() by {
                if live(old(self)@, e) {
                }
            }
        }
    }

    /// Moves the card under `entity`, if it is on the table, to `translation`.
    pub fn set_translation(&mut self, entity: usize, translation: Position)
        requires
            old(self).wf(),
        ensures
            final(self).wf(),
            final(self)@ == (if live(old(self)@, entity) {
                old(self)@.update(
                    entity as int,
                    Some(Card { translation, ..old(self)@[entity as int]->0 }),
                )
            } else {
                old(self)@
            }),
    {
        if let Some(card) = self.get(entity) {
            self.replace(entity, Card { translation, ..card });
            proof {
                lemma_keeps_links_forest(old(self)@, self@);
            assert forall|e: usize| #[trigger] live(self@, e) implies self@[e as int]->0.sound() by {
                if live(old(self)@, e) {
                }
            }
            }
        }
    }
}

impl Default for Cards {
    fn default() -> (cards: Cards)
        ensures
            cards@ == Seq::<Option<Card>>::empty(),
            cards.wf(),
    {
        Cards::new()
    }
}

} // verus!
