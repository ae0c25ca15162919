//! The evaluation of stacks: classifying anew the stacks that changed, and running the
//! recipes of the stacks that breed.

use crate::card::{Card, CardType};
use crate::cards::Cards;
use crate::chain::{
    chain, child_of, forest, is_root, keeps_slots, kinds, lemma_keeps_slots_twice,
    lemma_root_of, lemma_same_links, live, parent_of, root_of, same_links,
};
use crate::counts::{breeds, lemma_tally_breeds};
use crate::geometry::{clamp_i32, Position};
use crate::registry::{StackRoots, StackType};
use crate::stack::{find_stack_root, get_cards_types, registry_tracks};
use crate::timer::{running, without_bar, ProgressBar, ProgressBars};
use vstd::prelude::*;

verus! {

/// How long two villagers take to breed, in milliseconds.
pub const BREED_TIME: u32 = 5000;

/// What the evaluation of stacks reads and changes: the cards, the progress bars, the
/// registered roots and the queue.
pub struct Breeding {
    pub cards: Seq<Option<Card>>,
    pub bars: Seq<Option<ProgressBar>>,
    pub roots: Map<usize, StackType>,
    pub queued: Set<usize>,
}

/// The state that the three stores hold.
pub open spec fn breeding_of(cards: Cards, bars: ProgressBars, stack_roots: StackRoots) -> Breeding {
    Breeding {
        cards: cards@,
        bars: bars@,
        roots: stack_roots.roots(),
        queued: stack_roots.queued(),
    }
}

/// The bars after a classification was given up: the timer of a breeding stack ends.
pub open spec fn cancelled(bars: Seq<Option<ProgressBar>>, stack_type: Option<StackType>) -> Seq<
    Option<ProgressBar>,
> {
    match stack_type {
        Some(StackType::Breed { progress_bar }) => without_bar(bars, progress_bar),
        _ => bars,
    }
}

/// Whether the stack rooted at `root` follows the breeding recipe.
pub open spec fn stack_breeds(cards: Seq<Option<Card>>, root: usize) -> bool {
    breeds(kinds(cards, chain(cards, root)))
}

/// The state after the stack of `e` was classified anew. If `e` is no longer the root of
/// its stack, it leaves the registry. The root of the stack is classified by the cards of
/// the stack: as breeding, with a fresh timer, if they follow the recipe, and as nothing
/// otherwise. The timers of the classifications given up end.
pub open spec fn recomputed(s: Breeding, e: usize) -> Breeding {
    let root = root_of(s.cards, e);
    let displaced = if root != e && s.roots.contains_key(e) {
        Some(s.roots[e])
    } else {
        None
    };
    let kept = if root != e {
        s.roots.remove(e)
    } else {
        s.roots
    };
    let replaced = if kept.contains_key(root) {
        Some(kept[root])
    } else {
        None
    };
    if stack_breeds(s.cards, root) {
        Breeding {
            cards: s.cards,
            bars: cancelled(
                cancelled(
                    s.bars.push(Some(ProgressBar { current: 0, total: BREED_TIME })),
                    displaced,
                ),
                replaced,
            ),
            roots: kept.insert(root, StackType::Breed { progress_bar: s.bars.len() as usize }),
            queued: s.queued,
        }
    } else {
        Breeding {
            cards: s.cards,
            bars: cancelled(cancelled(s.bars, displaced), replaced),
            roots: kept.insert(root, StackType::Nothing),
            queued: s.queued,
        }
    }
}

/// The state after the stack of each of `dirty` was classified anew, in turn.
pub open spec fn recomputed_all(s: Breeding, dirty: Seq<usize>) -> Breeding
    decreases dirty.len(),
{
    if dirty.len() == 0 {
        s
    } else {
        recomputed(recomputed_all(s, dirty.drop_last()), dirty.last())
    }
}

/// Where the offspring of the stack rooted at a card is laid: beside that card.
pub open spec fn offspring_position(parent: Position) -> Position {
    Position { x: clamp_i32(parent.x + Card::SPAWN_OFFSET) as i32, y: parent.y, z: 0 }
}

/// The state after the recipe of the registered root `root` ran for `delta` milliseconds.
/// Only a breeding stack whose timer runs is affected: its timer advances, and when the
/// timer is full it ends, a villager is laid beside the root if the root is on the table,
/// and the root is registered as pending and waits to be classified anew.
pub open spec fn ticked(s: Breeding, root: usize, delta: u32) -> Breeding {
    if s.roots.contains_key(root) {
        match s.roots[root] {
            StackType::Breed { progress_bar } => {
                if running(s.bars, progress_bar) {
                    let bar = s.bars[progress_bar as int]->0.added(delta);
                    if bar.finished_spec() {
                        Breeding {
                            cards: if live(s.cards, root) {
                                s.cards.push(
                                    Some(
                                        Card {
                                            translation: offspring_position(
                                                s.cards[root as int]->0.translation,
                                            ),
                                            ..Card::of(CardType::Villager)
                                        },
                                    ),
                                )
                            } else {
                                s.cards
                            },
                            bars: s.bars.update(progress_bar as int, None),
                            roots: s.roots.insert(root, StackType::Pending),
                            queued: s.queued.insert(root),
                        }
                    } else {
                        Breeding { bars: s.bars.update(progress_bar as int, Some(bar)), ..s }
                    }
                } else {
                    s
                }
            },
            _ => s,
        }
    } else {
        s
    }
}

/// The state after the recipe of each of `roots` ran for `delta` milliseconds, in turn.
pub open spec fn ticked_all(s: Breeding, roots: Seq<usize>, delta: u32) -> Breeding
    decreases roots.len(),
{
    if roots.len() == 0 {
        s
    } else {
        ticked(ticked_all(s, roots.drop_last(), delta), roots.last(), delta)
    }
}

/// The registry is accurate when every registered identity is the root of its stack.
pub open spec fn registry_accurate(cards: Seq<Option<Card>>, roots: Map<usize, StackType>) -> bool {
    forall|e: usize| roots.contains_key(e) ==> is_root(cards, e)
}

/// Whether the root `root` is registered with the classification that the cards of its
/// stack call for: breeding if they follow the recipe, nothing otherwise.
pub open spec fn classified(s: Breeding, root: usize) -> bool {
    &&& s.roots.contains_key(root)
    &&& (s.roots[root] is Breed) == stack_breeds(s.cards, root)
    &&& (s.roots[root] is Nothing) == !stack_breeds(s.cards, root)
}

/// What classifying the stack of `e` anew does to the registry: the root of the stack is
/// registered and classified by its cards, `e` is struck if it is not that root, and every
/// other entry stays as it was. The cards and the queue are left alone.
pub proof fn lemma_recomputed(s: Breeding, e: usize)
    requires
        forest(s.cards),
    ensures
        recomputed(s, e).cards == s.cards,
        recomputed(s, e).queued == s.queued,
        is_root(s.cards, root_of(s.cards, e)),
        classified(recomputed(s, e), root_of(s.cards, e)),
        forall|k: usize| #[trigger]
            recomputed(s, e).roots.contains_key(k) <==> (k == root_of(s.cards, e) || (
            s.roots.contains_key(k) && k != e)),
        forall|k: usize|
            k != root_of(s.cards, e) && #[trigger] recomputed(s, e).roots.contains_key(k) ==> recomputed(
                s,
                e,
            ).roots[k] == s.roots[k],
{
    lemma_root_of(s.cards, e);
}

/// What classifying anew the stacks of all of `dirty` does to the registry. Every entry
/// that is left names the root of a stack, or was there before and is not among `dirty`.
/// The root of the stack of each of `dirty` is registered and classified by its cards.
pub proof fn lemma_recomputed_all(s: Breeding, dirty: Seq<usize>)
    requires
        forest(s.cards),
    ensures
        recomputed_all(s, dirty).cards == s.cards,
        recomputed_all(s, dirty).queued == s.queued,
        forall|k: usize| #[trigger]
            recomputed_all(s, dirty).roots.contains_key(k) ==> is_root(s.cards, k) || (
            s.roots.contains_key(k) && !dirty.contains(k)),
        forall|k: usize| #[trigger]
            dirty.contains(k) ==> classified(recomputed_all(s, dirty), root_of(s.cards, k)),
    decreases dirty.len(),
{
    if dirty.len() > 0 {
        let earlier = dirty.drop_last();
        let e = dirty.last();
        let t = recomputed_all(s, earlier);
        lemma_recomputed_all(s, earlier);
        lemma_recomputed(t, e);
        let u = recomputed(t, e);
        assert(u == recomputed_all(s, dirty));
        lemma_root_of(s.cards, e);
        assert forall|k: usize| #[trigger] u.roots.contains_key(k) implies is_root(s.cards, k) || (
        s.roots.contains_key(k) && !dirty.contains(k)) by {
            if k != root_of(s.cards, e) {
                assert(t.roots.contains_key(k) && k != e);
                if !is_root(s.cards, k) {
                    assert(!earlier.contains(k));
                    if dirty.contains(k) {
                        let i = choose|i: int| 0 <= i < dirty.len() && dirty[i] == k;
                        if i < earlier.len() {
                            assert(earlier[i] == k);
                        }
                    }
                }
            }
        }
        assert forall|k: usize| #[trigger] dirty.contains(k) implies classified(
            u,
            root_of(s.cards, k),
        ) by {
            let i = choose|i: int| 0 <= i < dirty.len() && dirty[i] == k;
            if i < earlier.len() {
                assert(earlier[i] == k);
                assert(earlier.contains(k));
                lemma_root_of(s.cards, k);
                let root = root_of(s.cards, k);
                assert(classified(t, root));
                if root != root_of(s.cards, e) {
                    assert(root != e);
                }
            }
        }
    } else {
        assert forall|k: usize| !dirty.contains(k) by {}
    }
}

/// A stack whose cards have not changed is classified the same way however often it is
/// classified anew: as breeding each time, or as nothing each time.
pub proof fn lemma_recompute_settles(s: Breeding, e: usize)
    requires
        forest(s.cards),
    ensures
        classified(recomputed(s, e), root_of(s.cards, e)),
        classified(recomputed(recomputed(s, e), e), root_of(s.cards, e)),
        (recomputed(recomputed(s, e), e).roots[root_of(s.cards, e)] is Breed) == (recomputed(
            s,
            e,
        ).roots[root_of(s.cards, e)] is Breed),
        recomputed(recomputed(s, e), e).roots.dom() =~= recomputed(s, e).roots.dom(),
{
    lemma_recomputed(s, e);
    lemma_recomputed(recomputed(s, e), e);
    lemma_root_of(s.cards, e);
}

/// How a stack is classified depends on nothing but the kinds of its cards: two stacks of
/// the same cards in the same order are both classified as breeding, or both as nothing,
/// whatever else differs between the two states.
pub proof fn lemma_same_cards_same_class(s: Breeding, t: Breeding, e: usize, f: usize)
    requires
        forest(s.cards),
        forest(t.cards),
        kinds(s.cards, chain(s.cards, root_of(s.cards, e))) == kinds(
            t.cards,
            chain(t.cards, root_of(t.cards, f)),
        ),
    ensures
        classified(recomputed(s, e), root_of(s.cards, e)),
        classified(recomputed(t, f), root_of(t.cards, f)),
        (recomputed(s, e).roots[root_of(s.cards, e)] is Breed) == (recomputed(
            t,
            f,
        ).roots[root_of(t.cards, f)] is Breed),
{
    lemma_recomputed(s, e);
    lemma_recomputed(t, f);
}

/// Running a recipe adds no reference between cards and takes no card away; the same
/// identities stay registered.
pub proof fn lemma_ticked(s: Breeding, root: usize, delta: u32)
    ensures
        same_links(s.cards, ticked(s, root, delta).cards),
        ticked(s, root, delta).roots.dom() =~= s.roots.dom(),
        forall|e: usize| s.queued.contains(e) ==> ticked(s, root, delta).queued.contains(e),
{
    let t = ticked(s, root, delta);
    assert forall|e: usize|
        #![trigger parent_of(t.cards, e)]
        #![trigger child_of(t.cards, e)]
        parent_of(t.cards, e) == parent_of(s.cards, e) && child_of(t.cards, e)
            == child_of(s.cards, e) by {}
}

/// Running the recipes of any roots adds no reference between cards and takes no card
/// away; the same identities stay registered.
pub proof fn lemma_ticked_all(s: Breeding, roots: Seq<usize>, delta: u32)
    ensures
        same_links(s.cards, ticked_all(s, roots, delta).cards),
        ticked_all(s, roots, delta).roots.dom() =~= s.roots.dom(),
        forall|e: usize| s.queued.contains(e) ==> ticked_all(s, roots, delta).queued.contains(e),
    decreases roots.len(),
{
    if roots.len() > 0 {
        let t = ticked_all(s, roots.drop_last(), delta);
        lemma_ticked_all(s, roots.drop_last(), delta);
        lemma_ticked(t, roots.last(), delta);
    }
}

/// After an evaluation the registry is accurate: if before it every registered identity
/// that was not the root of its stack waited to be classified anew, then afterwards every
/// registered identity is the root of its stack. And the root of the stack of every
/// identity that waited is registered.
pub proof fn lemma_evaluated(
    before: Breeding,
    after: Breeding,
    dirty: Seq<usize>,
    roots: Seq<usize>,
    delta: u32,
)
    requires
        forest(before.cards),
        evaluated(before, after, dirty, roots, delta),
    ensures
        same_links(before.cards, after.cards),
        registry_tracks(before.cards, before.roots, before.queued) ==> registry_accurate(
            after.cards,
            after.roots,
        ),
        forall|e: usize|
            before.queued.contains(e) ==> after.roots.contains_key(root_of(after.cards, e)),
{
    let start = drained(before);
    let middle = recomputed_all(start, dirty);
    lemma_recomputed_all(start, dirty);
    lemma_ticked_all(middle, roots, delta);
    assert forall|e: usize|
        registry_tracks(before.cards, before.roots, before.queued) && after.roots.contains_key(
            e,
        ) implies is_root(after.cards, e) by {
        assert(middle.roots.dom().contains(e));
        assert(middle.roots.contains_key(e));
        assert(parent_of(after.cards, e) == parent_of(before.cards, e));
        if !is_root(before.cards, e) {
            assert(start.roots.contains_key(e) && !dirty.contains(e));
            assert(before.roots.contains_key(e));
            assert(before.queued.contains(e));
            assert(dirty.contains(e));
        }
    }
    assert forall|e: usize| before.queued.contains(e) implies after.roots.contains_key(
        root_of(after.cards, e),
    ) by {
        assert(dirty.contains(e));
        lemma_same_links(before.cards, after.cards, e);
        assert(classified(middle, root_of(before.cards, e)));
        assert(middle.roots.dom().contains(root_of(before.cards, e)));
    }
}

/// Ends the timer of a classification that was given up.
fn cancel(bars: &mut ProgressBars, stack_type: Option<StackType>)
    ensures
        final(bars)@ == cancelled(old(bars)@, stack_type),
{
    match stack_type {
        Some(StackType::Breed { progress_bar }) => {
            bars.despawn(progress_bar);
        },
        _ => {},
    }
}

/// Classifies the stack of `entity` anew.
pub fn recompute_stack(
    entity: usize,
    bars: &mut ProgressBars,
    stack_roots: &mut StackRoots,
    cards: &Cards,
)
    requires
        cards.wf(),
    ensures
        breeding_of(*cards, *final(bars), *final(stack_roots)) == recomputed(
            breeding_of(*cards, *old(bars), *old(stack_roots)),
            entity,
        ),
{
    let root = find_stack_root(cards, entity);
    let mut displaced: Option<StackType> = None;
    if root != entity {
        displaced = stack_roots.unregister(entity);
    }
    let card_types = get_cards_types(root, cards);
    proof {
        lemma_tally_breeds(kinds(cards@, chain(cards@, root)));
    }
    let new_stack_type = if card_types.is_breeding_pair() {
        let progress_bar = bars.spawn(BREED_TIME);
        StackType::Breed { progress_bar }
    } else {
        StackType::Nothing
    };
    let replaced = stack_roots.classify(root, new_stack_type);
    cancel(bars, displaced);
    cancel(bars, replaced);
}

/// Classifies anew the stack of each of `dirty`, in turn.
pub fn recompute_stacks(
    dirty: &Vec<usize>,
    bars: &mut ProgressBars,
    stack_roots: &mut StackRoots,
    cards: &Cards,
)
    requires
        cards.wf(),
    ensures
        breeding_of(*cards, *final(bars), *final(stack_roots)) == recomputed_all(
            breeding_of(*cards, *old(bars), *old(stack_roots)),
            dirty@,
        ),
{
    let mut i: usize = 0;
    assert(dirty@.take(0) =~= Seq::<usize>::empty());
    while i < dirty.len()
        invariant
            i <= dirty.len(),
            cards.wf(),
            breeding_of(*cards, *bars, *stack_roots) == recomputed_all(
                breeding_of(*cards, *old(bars), *old(stack_roots)),
                dirty@.take(i as int),
            ),
        decreases dirty.len() - i,
    {
        proof {
            assert(dirty@.take(i + 1).drop_last() =~= dirty@.take(i as int));
            assert(dirty@.take(i + 1).last() == dirty@[i as int]);
        }
        recompute_stack(dirty[i], bars, stack_roots, cards);
        i = i + 1;
    }
    assert(dirty@.take(i as int) =~= dirty@);
}

/// Runs the recipe of the registered root `root` for `delta` milliseconds.
pub fn tick_stack(
    root: usize,
    delta: u32,
    bars: &mut ProgressBars,
    stack_roots: &mut StackRoots,
    cards: &mut Cards,
)
    requires
        old(cards).wf(),
    ensures
        breeding_of(*final(cards), *final(bars), *final(stack_roots)) == ticked(
            breeding_of(*old(cards), *old(bars), *old(stack_roots)),
            root,
            delta,
        ),
        final(cards).wf(),
        keeps_slots(old(cards)@, final(cards)@),
{
    if let Some(StackType::Breed { progress_bar }) = stack_roots.stack_type(root) {
        if let Some(mut bar) = bars.get(progress_bar) {
            bar.add(delta);
            if bar.finished() {
                bars.despawn(progress_bar);
                if let Some(parent) = cards.get(root) {
                    let beside = parent.translation.shifted_x(Card::SPAWN_OFFSET);
                    cards.spawn(
                        CardType::Villager,
                        Position { x: beside.x, y: beside.y, z: 0 },
                    );
                }
                stack_roots.classify(root, StackType::Pending);
                stack_roots.queue(root);
            } else {
                bars.set(progress_bar, bar);
            }
        }
    }
}

/// Runs the recipe of each of `roots` for `delta` milliseconds, in turn.
pub fn tick_stacks(
    roots: &Vec<usize>,
    delta: u32,
    bars: &mut ProgressBars,
    stack_roots: &mut StackRoots,
    cards: &mut Cards,
)
    requires
        old(cards).wf(),
    ensures
        breeding_of(*final(cards), *final(bars), *final(stack_roots)) == ticked_all(
            breeding_of(*old(cards), *old(bars), *old(stack_roots)),
            roots@,
            delta,
        ),
        final(cards).wf(),
        keeps_slots(old(cards)@, final(cards)@),
{
    let mut i: usize = 0;
    assert(roots@.take(0) =~= Seq::<usize>::empty());
    while i < roots.len()
        invariant
            i <= roots.len(),
            cards.wf(),
            keeps_slots(old(cards)@, cards@),
            breeding_of(*cards, *bars, *stack_roots) == ticked_all(
                breeding_of(*old(cards), *old(bars), *old(stack_roots)),
                roots@.take(i as int),
                delta,
            ),
        decreases roots.len() - i,
    {
        proof {
            assert(roots@.take(i + 1).drop_last() =~= roots@.take(i as int));
            assert(roots@.take(i + 1).last() == roots@[i as int]);
        }
        let ghost before = cards@;
        tick_stack(roots[i], delta, bars, stack_roots, cards);
        proof {
            lemma_keeps_slots_twice(old(cards)@, before, cards@);
        }
        i = i + 1;
    }
    assert(roots@.take(i as int) =~= roots@);
}

/// Whether `order` lists the members of `members`, each once.
pub open spec fn lists(order: Seq<usize>, members: Set<usize>) -> bool {
    order.no_duplicates() && forall|e: usize| order.contains(e) <==> members.contains(e)
}

/// The state in which nothing waits to be classified.
pub open spec fn drained(s: Breeding) -> Breeding {
    Breeding { queued: Set::empty(), ..s }
}

/// Whether `after` is what the evaluation of `before` leaves when the waiting stacks are
/// taken in the order `dirty` and the registered roots in the order `roots`.
pub open spec fn evaluated(
    before: Breeding,
    after: Breeding,
    dirty: Seq<usize>,
    roots: Seq<usize>,
    delta: u32,
) -> bool {
    let classified = recomputed_all(drained(before), dirty);
    &&& lists(dirty, before.queued)
    &&& lists(roots, classified.roots.dom())
    &&& after == ticked_all(classified, roots, delta)
}

/// Evaluates the stacks. First every stack that waits is classified anew, and the queue
/// is emptied. Then the recipe of every registered root runs for `delta` milliseconds.
/// The order in which the waiting stacks, and then the registered roots, are taken is
/// left open.
pub fn evaluate_stacks(
    bars: &mut ProgressBars,
    delta: u32,
    stack_roots: &mut StackRoots,
    cards: &mut Cards,
)
    requires
        old(cards).wf(),
    ensures
        final(cards).wf(),
        exists|dirty: Seq<usize>, roots: Seq<usize>|
            evaluated(
                breeding_of(*old(cards), *old(bars), *old(stack_roots)),
                breeding_of(*final(cards), *final(bars), *final(stack_roots)),
                dirty,
                roots,
                delta,
            ),
        same_links(old(cards)@, final(cards)@),
        keeps_slots(old(cards)@, final(cards)@),
        registry_tracks(old(cards)@, old(stack_roots).roots(), old(stack_roots).queued())
            ==> registry_accurate(final(cards)@, final(stack_roots).roots()),
        forall|e: usize|
            old(stack_roots).queued().contains(e) ==> final(stack_roots).roots().contains_key(
                root_of(final(cards)@, e),
            ),
{
    let dirty = stack_roots.take_queued();
    let ghost mid = *stack_roots;
    recompute_stacks(&dirty, bars, stack_roots, cards);
    let roots = stack_roots.registered();
    tick_stacks(&roots, delta, bars, stack_roots, cards);
    proof {
        let before = breeding_of(*old(cards), *old(bars), *old(stack_roots));
        let after = breeding_of(*cards, *bars, *stack_roots);
        assert(drained(before) == breeding_of(*old(cards), *old(bars), mid));
        assert(evaluated(before, after, dirty@, roots@, delta));
        lemma_evaluated(before, after, dirty@, roots@, delta);
    }
}

} // verus!
