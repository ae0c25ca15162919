//! Stacking: walking a stack to its ends, counting its cards, and laying one stack onto
//! another when two cards touch.

use crate::card::{Card, CardType, SelectedCard};
use crate::cards::Cards;
use crate::chain::{
    ancestor, chain, child_of, descendant, height_down, height_up, is_root, is_top, keeps_links,
    keeps_slots, kinds, lemma_chain, lemma_keeps_slots_twice, lemma_linked_forest,
    lemma_root_of, lemma_step_down_lowers, lemma_step_up_lowers, lemma_top_of, linked, live,
    parent_of, ranked, root_of, some_ranking, top_of,
};
use crate::counts::{tally, TypeCounts};
use crate::registry::{StackRoots, StackType};
use vstd::prelude::*;

verus! {

/// Two cards that began to touch.
#[derive(Clone, Copy, Debug, PartialEq, Eq, Structural)]
pub struct Collision {
    pub first: usize,
    pub second: usize,
}

/// The top of the stack that `current_entity` belongs to: the last identity on the way
/// along the child references. That identity names a card that carries nothing, or a card
/// that has left the table.
pub fn find_stack_top(cards: &Cards, current_entity: usize) -> (top: usize)
    requires
        cards.wf(),
    ensures
        top == top_of(cards@, current_entity),
        is_top(cards@, top),
        exists|n: nat| #[trigger] descendant(cards@, current_entity, n) == top,
{
    let mut current = current_entity;
    let ghost (rank, bound) = some_ranking(cards@);
    loop
        invariant
            cards.wf(),
            ranked(cards@, rank, bound),
            top_of(cards@, current) == top_of(cards@, current_entity),
        decreases height_down(cards@, rank, bound, current),
    {
        proof {
            lemma_top_of(cards@, current);
        }
        match cards.get(current) {
            Some(card) => {
                match card.stack_child {
                    Some(child) => {
                        proof {
                            lemma_step_down_lowers(cards@, rank, bound, current);
                        }
                        current = child;
                    },
                    None => {
                        return current;
                    },
                }
            },
            None => {
                return current;
            },
        }
    }
}

/// The root of the stack that `current_entity` belongs to: the last identity on the way
/// along the parent references. That identity names a card that lies on nothing, or a card
/// that has left the table.
pub fn find_stack_root(cards: &Cards, current_entity: usize) -> (root: usize)
    requires
        cards.wf(),
    ensures
        root == root_of(cards@, current_entity),
        is_root(cards@, root),
        exists|n: nat| #[trigger] ancestor(cards@, current_entity, n) == root,
{
    let mut current = current_entity;
    let ghost (rank, bound) = some_ranking(cards@);
    loop
        invariant
            cards.wf(),
            ranked(cards@, rank, bound),
            root_of(cards@, current) == root_of(cards@, current_entity),
        decreases height_up(cards@, rank, current),
    {
        proof {
            lemma_root_of(cards@, current);
        }
        match cards.get(current) {
            Some(card) => {
                match card.stack_parent {
                    Some(parent) => {
                        proof {
                            lemma_step_up_lowers(cards@, rank, bound, current);
                        }
                        current = parent;
                    },
                    None => {
                        return current;
                    },
                }
            },
            None => {
                return current;
            },
        }
    }
}

/// The kinds of the cards in the stack from `root` upwards, `root` first.
pub fn stack_kinds(root: usize, cards: &Cards) -> (found: Vec<CardType>)
    requires
        cards.wf(),
    ensures
        found@ == kinds(cards@, chain(cards@, root)),
        chain(cards@, root).len() <= usize::MAX,
{
    let mut current = root;
    let mut found: Vec<CardType> = Vec::new();
    let ghost mut walked: Seq<usize> = Seq::empty();
    let ghost (rank, bound) = some_ranking(cards@);
    assert(walked + chain(cards@, current) =~= chain(cards@, root));
    assert(found@ =~= kinds(cards@, walked));
    loop
        invariant
            cards.wf(),
            ranked(cards@, rank, bound),
            walked + chain(cards@, current) == chain(cards@, root),
            found@ == kinds(cards@, walked),
        decreases height_down(cards@, rank, bound, current),
    {
        proof {
            lemma_chain(cards@, current);
        }
        match cards.get(current) {
            Some(card) => {
                found.push(card.card_type());
                let ghost before = walked;
                proof {
                    walked = walked.push(current);
                    assert(found@ =~= kinds(cards@, walked));
                }
                match card.stack_child {
                    Some(child) => {
                        proof {
                            lemma_step_down_lowers(cards@, rank, bound, current);
                            assert(walked + chain(cards@, child) =~= before + chain(
                                cards@,
                                current,
                            ));
                        }
                        current = child;
                    },
                    None => {
                        assert(walked =~= before + chain(cards@, current));
                        assert(found.len() == found@.len() && found@.len() == walked.len());
                        return found;
                    },
                }
            },
            None => {
                assert(walked =~= walked + chain(cards@, current));
                assert(found.len() == found@.len() && found@.len() == walked.len());
                return found;
            },
        }
    }
}

/// How many cards of each kind the stack from `root` upwards holds.
pub fn get_cards_types(root: usize, cards: &Cards) -> (card_types: TypeCounts)
    requires
        cards.wf(),
    ensures
        card_types@ == tally(kinds(cards@, chain(cards@, root))),
        chain(cards@, root).len() <= usize::MAX,
{
    let found = stack_kinds(root, cards);
    TypeCounts::of(&found)
}

/// Whether `mover` may be laid onto the stack that `onto` belongs to: `mover` and the
/// top of that stack are on the table, `mover` lies on nothing, the top carries nothing,
/// both may be stacked, and the stack is not the one that `mover` itself heads.
pub open spec fn can_stack(cards: Seq<Option<Card>>, mover: usize, onto: usize) -> bool {
    let top = top_of(cards, onto);
    &&& live(cards, mover)
    &&& live(cards, top)
    &&& parent_of(cards, mover) is None
    &&& child_of(cards, top) is None
    &&& cards[top as int]->0.stackable()
    &&& cards[mover as int]->0.stackable()
    &&& root_of(cards, top) != mover
}

/// The cards after an attempt to lay `mover` onto the stack of `onto`.
pub open spec fn cards_after_stacking(cards: Seq<Option<Card>>, mover: usize, onto: usize) -> Seq<
    Option<Card>,
> {
    if can_stack(cards, mover, onto) {
        linked(cards, top_of(cards, onto), mover)
    } else {
        cards
    }
}

/// The registered roots after an attempt to lay `mover` onto the stack of `onto`: the
/// card that `mover` came to lie on is registered, as pending if it was not registered.
pub open spec fn roots_after_stacking(
    cards: Seq<Option<Card>>,
    roots: Map<usize, StackType>,
    mover: usize,
    onto: usize,
) -> Map<usize, StackType> {
    let top = top_of(cards, onto);
    if can_stack(cards, mover, onto) && !roots.contains_key(top) {
        roots.insert(top, StackType::Pending)
    } else {
        roots
    }
}

/// The queue after an attempt to lay `mover` onto the stack of `onto`: the card that
/// `mover` came to lie on waits to be classified, and so does `mover` if it is registered.
pub open spec fn queued_after_stacking(
    cards: Seq<Option<Card>>,
    roots: Map<usize, StackType>,
    queued: Set<usize>,
    mover: usize,
    onto: usize,
) -> Set<usize> {
    let top = top_of(cards, onto);
    if can_stack(cards, mover, onto) {
        if roots.contains_key(mover) {
            queued.insert(top).insert(mover)
        } else {
            queued.insert(top)
        }
    } else {
        queued
    }
}

/// The registry accounts for the cards when every registered identity that is not the
/// root of its stack waits to be classified anew.
pub open spec fn registry_tracks(
    cards: Seq<Option<Card>>,
    roots: Map<usize, StackType>,
    queued: Set<usize>,
) -> bool {
    forall|e: usize| roots.contains_key(e) && !is_root(cards, e) ==> queued.contains(e)
}

/// Tries to lay `mover` onto the stack that `onto` belongs to, and tells whether it did.
pub fn try_stacking(
    stack_roots: &mut StackRoots,
    cards: &mut Cards,
    mover: usize,
    onto: usize,
) -> (stacked: bool)
    requires
        old(cards).wf(),
    ensures
        stacked == can_stack(old(cards)@, mover, onto),
        final(cards)@ == cards_after_stacking(old(cards)@, mover, onto),
        final(stack_roots).roots() == roots_after_stacking(
            old(cards)@,
            old(stack_roots).roots(),
            mover,
            onto,
        ),
        final(stack_roots).queued() == queued_after_stacking(
            old(cards)@,
            old(stack_roots).roots(),
            old(stack_roots).queued(),
            mover,
            onto,
        ),
        final(cards).wf(),
        keeps_slots(old(cards)@, final(cards)@),
        registry_tracks(old(cards)@, old(stack_roots).roots(), old(stack_roots).queued())
            ==> registry_tracks(
            final(cards)@,
            final(stack_roots).roots(),
            final(stack_roots).queued(),
        ),
{
    let top = find_stack_top(cards, onto);
    let mover_card = match cards.get(mover) {
        Some(card) => card,
        None => {
            return false;
        },
    };
    let top_card = match cards.get(top) {
        Some(card) => card,
        None => {
            return false;
        },
    };
    if !(mover_card.stack_parent.is_none() && top_card.stack_child.is_none()
        && top_card.is_stackable() && mover_card.is_stackable()) {
        return false;
    }
    if find_stack_root(cards, top) == mover {
        return false;
    }
    proof {
        lemma_root_of(cards@, mover);
        lemma_linked_forest(cards@, top, mover);
    }
    cards.replace(top, Card { stack_child: Some(mover), ..top_card });
    cards.replace(mover, Card { stack_parent: Some(top), ..mover_card });
    assert(cards@ == linked(old(cards)@, top, mover));
    if stack_roots.stack_type(top).is_none() {
        stack_roots.classify(top, StackType::Pending);
    }
    stack_roots.queue(top);
    if stack_roots.stack_type(mover).is_some() {
        stack_roots.queue(mover);
    }
    proof {
        assert forall|e: usize| #[trigger] live(cards@, e) implies cards@[e as int]->0.sound() by {
            assert(live(old(cards)@, e));
        }
        assert forall|e: usize|
            registry_tracks(old(cards)@, old(stack_roots).roots(), old(stack_roots).queued())
                && stack_roots.roots().contains_key(e) && !is_root(
                cards@,
                e,
            ) implies stack_roots.queued().contains(e) by {
            if e != mover && e != top {
                assert(parent_of(cards@, e) == parent_of(old(cards)@, e));
            }
        }
    }
    true
}

/// Which of two cards that touch is laid on which: the first of the pair is the card in
/// front, the one with the higher draw depth, and it is laid onto the other. Nothing is
/// laid while the player holds one of the two, nor unless both are on the table.
pub open spec fn placement(
    cards: Seq<Option<Card>>,
    selected: SelectedCard,
    collision: Collision,
) -> Option<(usize, usize)> {
    let a = collision.first;
    let b = collision.second;
    if selected.holds(a) || selected.holds(b) || a == b || !live(cards, a) || !live(cards, b) {
        None
    } else if cards[a as int]->0.translation.z > cards[b as int]->0.translation.z {
        Some((a, b))
    } else {
        Some((b, a))
    }
}

/// The state of the stacks: the cards, the registered roots and the queue.
pub struct Stacks {
    pub cards: Seq<Option<Card>>,
    pub roots: Map<usize, StackType>,
    pub queued: Set<usize>,
}

/// The stacks after two cards began to touch.
pub open spec fn after_collision(s: Stacks, selected: SelectedCard, collision: Collision) -> Stacks {
    match placement(s.cards, selected, collision) {
        Some((mover, onto)) => Stacks {
            cards: cards_after_stacking(s.cards, mover, onto),
            roots: roots_after_stacking(s.cards, s.roots, mover, onto),
            queued: queued_after_stacking(s.cards, s.roots, s.queued, mover, onto),
        },
        None => s,
    }
}

/// The stacks after each of `collisions` was handled in turn.
pub open spec fn after_collisions(
    s: Stacks,
    selected: SelectedCard,
    collisions: Seq<Collision>,
) -> Stacks
    decreases collisions.len(),
{
    if collisions.len() == 0 {
        s
    } else {
        after_collision(
            after_collisions(s, selected, collisions.drop_last()),
            selected,
            collisions.last(),
        )
    }
}

/// The stacks that `cards` and `stack_roots` hold.
pub open spec fn stacks_of(cards: Cards, stack_roots: StackRoots) -> Stacks {
    Stacks { cards: cards@, roots: stack_roots.roots(), queued: stack_roots.queued() }
}

/// Handles the cards that began to touch: for each pair in turn, the card in front is
/// laid onto the stack of the other, if that may be done.
pub fn collide_cards(
    collisions: &Vec<Collision>,
    stack_roots: &mut StackRoots,
    selected: &SelectedCard,
    cards: &mut Cards,
)
    requires
        old(cards).wf(),
    ensures
        stacks_of(*final(cards), *final(stack_roots)) == after_collisions(
            stacks_of(*old(cards), *old(stack_roots)),
            *selected,
            collisions@,
        ),
        final(cards).wf(),
        keeps_slots(old(cards)@, final(cards)@),
        registry_tracks(old(cards)@, old(stack_roots).roots(), old(stack_roots).queued())
            ==> registry_tracks(
            final(cards)@,
            final(stack_roots).roots(),
            final(stack_roots).queued(),
        ),
{
    let mut i: usize = 0;
    assert(collisions@.take(0) =~= Seq::<Collision>::empty());
    while i < collisions.len()
        invariant
            i <= collisions.len(),
            cards.wf(),
            keeps_slots(old(cards)@, cards@),
            stacks_of(*cards, *stack_roots) == after_collisions(
                stacks_of(*old(cards), *old(stack_roots)),
                *selected,
                collisions@.take(i as int),
            ),
            registry_tracks(old(cards)@, old(stack_roots).roots(), old(stack_roots).queued())
                ==> registry_tracks(cards@, stack_roots.roots(), stack_roots.queued()),
        decreases collisions.len() - i,
    {
        let collision = collisions[i];
        proof {
            assert(collisions@.take(i + 1).drop_last() =~= collisions@.take(i as int));
            assert(collisions@.take(i + 1).last() == collision);
        }
        let first = collision.first;
        let second = collision.second;
        let ghost before = cards@;
        if !(selected.is_selected(first) || selected.is_selected(second) || first == second) {
            if let Some(c1) = cards.get(first) {
                if let Some(c2) = cards.get(second) {
                    if c1.translation.z > c2.translation.z {
                        try_stacking(stack_roots, cards, first, second);
                    } else {
                        try_stacking(stack_roots, cards, second, first);
                    }
                }
            }
        }
        proof {
            lemma_keeps_slots_twice(old(cards)@, before, cards@);
        }
        i = i + 1;
    }
    assert(collisions@.take(i as int) =~= collisions@);
}

/// The registry keeps accounting for the cards through any change that adds no
/// reference between cards.
pub proof fn lemma_tracks_kept(
    before: Seq<Option<Card>>,
    after: Seq<Option<Card>>,
    roots: Map<usize, StackType>,
    queued: Set<usize>,
)
    requires
        keeps_links(before, after),
        registry_tracks(before, roots, queued),
    ensures
        registry_tracks(after, roots, queued),
{
    assert forall|e: usize| roots.contains_key(e) && !is_root(after, e) implies queued.contains(
        e,
    ) by {
        assert(live(after, e));
        if live(before, e) {
            assert(!is_root(before, e));
        }
    }
}

} // verus!
