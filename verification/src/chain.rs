//! The theory of stacks: cards linked by parent and child references into chains, the
//! root and the top of the chain that a card belongs to, and what keeps every walk along
//! the references finite.
//!
//! A reference may name a card that has left the table. Such a reference ends a chain: a
//! walk that arrives at a missing card stops there.

use crate::card::{Card, CardType};
use vstd::prelude::*;

verus! {

/// Whether `e` names a card that is on the table.
pub open spec fn live(cards: Seq<Option<Card>>, e: usize) -> bool {
    e < cards.len() && cards[e as int] is Some
}

/// The card that `e` lies on.
pub open spec fn parent_of(cards: Seq<Option<Card>>, e: usize) -> Option<usize> {
    if live(cards, e) {
        cards[e as int]->0.stack_parent
    } else {
        None
    }
}

/// The card that lies on `e`.
pub open spec fn child_of(cards: Seq<Option<Card>>, e: usize) -> Option<usize> {
    if live(cards, e) {
        cards[e as int]->0.stack_child
    } else {
        None
    }
}

/// Whether a walk towards the root ends at `e`: `e` lies on nothing, or is missing.
pub open spec fn is_root(cards: Seq<Option<Card>>, e: usize) -> bool {
    parent_of(cards, e) is None
}

/// Whether a walk towards the top ends at `e`: nothing lies on `e`, or `e` is missing.
pub open spec fn is_top(cards: Seq<Option<Card>>, e: usize) -> bool {
    child_of(cards, e) is None
}

/// One step towards the root.
pub open spec fn step_up(cards: Seq<Option<Card>>, e: usize) -> usize {
    match parent_of(cards, e) {
        Some(p) => p,
        None => e,
    }
}

/// One step towards the top.
pub open spec fn step_down(cards: Seq<Option<Card>>, e: usize) -> usize {
    match child_of(cards, e) {
        Some(c) => c,
        None => e,
    }
}

/// Where `n` steps towards the root lead from `e`.
pub open spec fn ancestor(cards: Seq<Option<Card>>, e: usize, n: nat) -> usize
    decreases n,
{
    if n == 0 {
        e
    } else {
        ancestor(cards, step_up(cards, e), (n - 1) as nat)
    }
}

/// Where `n` steps towards the top lead from `e`.
pub open spec fn descendant(cards: Seq<Option<Card>>, e: usize, n: nat) -> usize
    decreases n,
{
    if n == 0 {
        e
    } else {
        descendant(cards, step_down(cards, e), (n - 1) as nat)
    }
}

/// Whether `n` steps towards the root suffice to reach the end of the chain of `e`.
pub open spec fn reaches_root(cards: Seq<Option<Card>>, e: usize, n: nat) -> bool {
    is_root(cards, ancestor(cards, e, n))
}

/// Whether `n` steps towards the top suffice to reach the end of the chain of `e`.
pub open spec fn reaches_top(cards: Seq<Option<Card>>, e: usize, n: nat) -> bool {
    is_top(cards, descendant(cards, e, n))
}

/// The root of the stack that `e` belongs to: where the walk from `e` along the parent
/// references ends.
pub open spec fn root_of(cards: Seq<Option<Card>>, e: usize) -> usize {
    ancestor(cards, e, choose|n: nat| reaches_root(cards, e, n))
}

/// The top of the stack that `e` belongs to: where the walk from `e` along the child
/// references ends.
pub open spec fn top_of(cards: Seq<Option<Card>>, e: usize) -> usize {
    descendant(cards, e, choose|n: nat| reaches_top(cards, e, n))
}

/// The cards met on at most `n` steps from `e` towards the top, `e` first. The walk ends
/// at a card that carries nothing and before a missing card.
pub open spec fn chain_prefix(cards: Seq<Option<Card>>, e: usize, n: nat) -> Seq<usize>
    decreases n,
{
    if n == 0 || !live(cards, e) {
        Seq::empty()
    } else {
        match child_of(cards, e) {
            Some(c) => seq![e] + chain_prefix(cards, c, (n - 1) as nat),
            None => seq![e],
        }
    }
}

/// Whether `n` steps walk the whole chain from `e` to its end.
pub open spec fn spans_chain(cards: Seq<Option<Card>>, e: usize, n: nat) -> bool {
    chain_prefix(cards, e, n).len() < n
}

/// The stack from `e` upwards: `e`, the card on it, the card on that, to the end.
pub open spec fn chain(cards: Seq<Option<Card>>, e: usize) -> Seq<usize> {
    chain_prefix(cards, e, choose|n: nat| spans_chain(cards, e, n))
}

/// The kinds of the cards in `ids`, in order.
pub open spec fn kinds(cards: Seq<Option<Card>>, ids: Seq<usize>) -> Seq<CardType> {
    Seq::new(ids.len(), |i: int| cards[ids[i] as int]->0.info.card_type)
}

/// Each reference names an identity that has been given out, and each reference between
/// two cards on the table is answered by the reference back.
pub open spec fn links_consistent(cards: Seq<Option<Card>>) -> bool {
    forall|e: usize| #[trigger]
        live(cards, e) ==> {
            &&& (child_of(cards, e) matches Some(c) ==> c < cards.len() && (live(cards, c)
                ==> parent_of(cards, c) == Some(e)))
            &&& (parent_of(cards, e) matches Some(p) ==> p < cards.len() && (live(cards, p)
                ==> child_of(cards, p) == Some(e)))
        }
}

/// Whether `rank` numbers the cards so that each card on the table ranks above the card
/// it lies on, and none above `bound`.
pub open spec fn ranked(cards: Seq<Option<Card>>, rank: Seq<nat>, bound: nat) -> bool {
    &&& rank.len() == cards.len()
    &&& forall|e: usize| #[trigger]
        live(cards, e) ==> {
            &&& rank[e as int] <= bound
            &&& (parent_of(cards, e) matches Some(p) ==> live(cards, p) ==> rank[p as int]
                < rank[e as int])
        }
}

/// No walk along the parent references comes back to where it began.
pub open spec fn acyclic(cards: Seq<Option<Card>>) -> bool {
    exists|rank: Seq<nat>, bound: nat| ranked(cards, rank, bound)
}

/// The cards form a forest of chains: references are answered, and no chain is a ring.
pub open spec fn forest(cards: Seq<Option<Card>>) -> bool {
    links_consistent(cards) && acyclic(cards)
}

/// How many steps towards the root may still lie ahead of `e`.
pub open spec fn height_up(cards: Seq<Option<Card>>, rank: Seq<nat>, e: usize) -> nat {
    if live(cards, e) {
        rank[e as int] + 1
    } else {
        0
    }
}

/// How many steps towards the top may still lie ahead of `e`.
pub open spec fn height_down(cards: Seq<Option<Card>>, rank: Seq<nat>, bound: nat, e: usize) -> nat {
    if live(cards, e) {
        (bound - rank[e as int] + 1) as nat
    } else {
        0
    }
}

/// A ranking that witnesses [`acyclic`].
pub open spec fn some_ranking(cards: Seq<Option<Card>>) -> (Seq<nat>, nat) {
    choose|rank: Seq<nat>, bound: nat| ranked(cards, rank, bound)
}

/// Under a ranking, a step towards the root lowers [`height_up`].
pub proof fn lemma_step_up_lowers(cards: Seq<Option<Card>>, rank: Seq<nat>, bound: nat, e: usize)
    requires
        ranked(cards, rank, bound),
        !is_root(cards, e),
    ensures
        height_up(cards, rank, step_up(cards, e)) < height_up(cards, rank, e),
{
    assert(live(cards, e));
}

/// Under a ranking of consistent references, a step towards the top lowers
/// [`height_down`].
pub proof fn lemma_step_down_lowers(cards: Seq<Option<Card>>, rank: Seq<nat>, bound: nat, e: usize)
    requires
        links_consistent(cards),
        ranked(cards, rank, bound),
        !is_top(cards, e),
    ensures
        height_down(cards, rank, bound, step_down(cards, e)) < height_down(cards, rank, bound, e),
{
    assert(live(cards, e));
    let c = step_down(cards, e);
    if live(cards, c) {
        assert(parent_of(cards, c) == Some(e));
    }
}

/// A walk that starts at the end of a chain stays there.
pub proof fn lemma_ancestor_of_root(cards: Seq<Option<Card>>, e: usize, n: nat)
    requires
        is_root(cards, e),
    ensures
        ancestor(cards, e, n) == e,
    decreases n,
{
    if n > 0 {
        lemma_ancestor_of_root(cards, e, (n - 1) as nat);
    }
}

/// A walk that starts at the end of a chain stays there.
pub proof fn lemma_descendant_of_top(cards: Seq<Option<Card>>, e: usize, n: nat)
    requires
        is_top(cards, e),
    ensures
        descendant(cards, e, n) == e,
    decreases n,
{
    if n > 0 {
        lemma_descendant_of_top(cards, e, (n - 1) as nat);
    }
}

/// Under a ranking, the walk from any card towards the root ends.
pub proof fn lemma_walk_up_ends(cards: Seq<Option<Card>>, rank: Seq<nat>, bound: nat, e: usize)
    requires
        ranked(cards, rank, bound),
    ensures
        exists|n: nat| reaches_root(cards, e, n),
    decreases height_up(cards, rank, e),
{
    if is_root(cards, e) {
        assert(reaches_root(cards, e, 0));
    } else {
        lemma_step_up_lowers(cards, rank, bound, e);
        lemma_walk_up_ends(cards, rank, bound, step_up(cards, e));
        let m = choose|m: nat| reaches_root(cards, step_up(cards, e), m);
        assert(reaches_root(cards, e, m + 1));
    }
}

/// Under a ranking of consistent references, the walk from any card towards the top ends.
pub proof fn lemma_walk_down_ends(cards: Seq<Option<Card>>, rank: Seq<nat>, bound: nat, e: usize)
    requires
        links_consistent(cards),
        ranked(cards, rank, bound),
    ensures
        exists|n: nat| reaches_top(cards, e, n),
    decreases height_down(cards, rank, bound, e),
{
    if is_top(cards, e) {
        assert(reaches_top(cards, e, 0));
    } else {
        lemma_step_down_lowers(cards, rank, bound, e);
        lemma_walk_down_ends(cards, rank, bound, step_down(cards, e));
        let m = choose|m: nat| reaches_top(cards, step_down(cards, e), m);
        assert(reaches_top(cards, e, m + 1));
    }
}

/// However many steps it takes, a walk towards the root ends at one and the same card.
pub proof fn lemma_root_unique(cards: Seq<Option<Card>>, e: usize, n: nat, m: nat)
    requires
        reaches_root(cards, e, n),
        reaches_root(cards, e, m),
    ensures
        ancestor(cards, e, n) == ancestor(cards, e, m),
    decreases n,
{
    if is_root(cards, e) {
        lemma_ancestor_of_root(cards, e, n);
        lemma_ancestor_of_root(cards, e, m);
    } else {
        lemma_root_unique(cards, step_up(cards, e), (n - 1) as nat, (m - 1) as nat);
    }
}

/// However many steps it takes, a walk towards the top ends at one and the same card.
pub proof fn lemma_top_unique(cards: Seq<Option<Card>>, e: usize, n: nat, m: nat)
    requires
        reaches_top(cards, e, n),
        reaches_top(cards, e, m),
    ensures
        descendant(cards, e, n) == descendant(cards, e, m),
    decreases n,
{
    if is_top(cards, e) {
        lemma_descendant_of_top(cards, e, n);
        lemma_descendant_of_top(cards, e, m);
    } else {
        lemma_top_unique(cards, step_down(cards, e), (n - 1) as nat, (m - 1) as nat);
    }
}

/// The card that a walk towards the root ends at is the root.
pub proof fn lemma_root_is(cards: Seq<Option<Card>>, e: usize, n: nat)
    requires
        reaches_root(cards, e, n),
    ensures
        root_of(cards, e) == ancestor(cards, e, n),
        is_root(cards, root_of(cards, e)),
{
    let k = choose|k: nat| reaches_root(cards, e, k);
    lemma_root_unique(cards, e, k, n);
}

/// The card that a walk towards the top ends at is the top.
pub proof fn lemma_top_is(cards: Seq<Option<Card>>, e: usize, n: nat)
    requires
        reaches_top(cards, e, n),
    ensures
        top_of(cards, e) == descendant(cards, e, n),
        is_top(cards, top_of(cards, e)),
{
    let k = choose|k: nat| reaches_top(cards, e, k);
    lemma_top_unique(cards, e, k, n);
}

/// In a forest every card has a root: a card that lies on nothing is its own root, and
/// any other card has the root of the card it lies on.
pub proof fn lemma_root_of(cards: Seq<Option<Card>>, e: usize)
    requires
        acyclic(cards),
    ensures
        is_root(cards, root_of(cards, e)),
        is_root(cards, e) ==> root_of(cards, e) == e,
        root_of(cards, e) == root_of(cards, step_up(cards, e)),
{
    let (rank, bound) = some_ranking(cards);
    lemma_walk_up_ends(cards, rank, bound, e);
    let n = choose|n: nat| reaches_root(cards, e, n);
    lemma_root_is(cards, e, n);
    if is_root(cards, e) {
        lemma_root_is(cards, e, 0);
    } else {
        lemma_root_is(cards, step_up(cards, e), (n - 1) as nat);
    }
}

/// In a forest every card has a top: a card that carries nothing is its own top, and any
/// other card has the top of the card it carries.
pub proof fn lemma_top_of(cards: Seq<Option<Card>>, e: usize)
    requires
        forest(cards),
    ensures
        is_top(cards, top_of(cards, e)),
        is_top(cards, e) ==> top_of(cards, e) == e,
        top_of(cards, e) == top_of(cards, step_down(cards, e)),
{
    let (rank, bound) = some_ranking(cards);
    lemma_walk_down_ends(cards, rank, bound, e);
    let n = choose|n: nat| reaches_top(cards, e, n);
    lemma_top_is(cards, e, n);
    if is_top(cards, e) {
        lemma_top_is(cards, e, 0);
    } else {
        lemma_top_is(cards, step_down(cards, e), (n - 1) as nat);
    }
}

/// Once a walk has covered the whole chain, more steps add nothing.
pub proof fn lemma_chain_prefix_stable(cards: Seq<Option<Card>>, e: usize, n: nat, m: nat)
    requires
        spans_chain(cards, e, n),
        n <= m,
    ensures
        chain_prefix(cards, e, m) == chain_prefix(cards, e, n),
    decreases n,
{
    if live(cards, e) {
        match child_of(cards, e) {
            Some(c) => {
                lemma_chain_prefix_stable(cards, c, (n - 1) as nat, (m - 1) as nat);
            },
            None => {},
        }
    }
}

/// Under a ranking of consistent references, some number of steps covers the whole
/// chain from any card.
pub proof fn lemma_chain_ends(cards: Seq<Option<Card>>, rank: Seq<nat>, bound: nat, e: usize)
    requires
        links_consistent(cards),
        ranked(cards, rank, bound),
    ensures
        exists|n: nat| spans_chain(cards, e, n),
    decreases height_down(cards, rank, bound, e),
{
    if !live(cards, e) {
        assert(spans_chain(cards, e, 1));
    } else {
        match child_of(cards, e) {
            Some(c) => {
                lemma_step_down_lowers(cards, rank, bound, e);
                lemma_chain_ends(cards, rank, bound, c);
                let m = choose|m: nat| spans_chain(cards, c, m);
                assert(spans_chain(cards, e, m + 1));
            },
            None => {
                assert(spans_chain(cards, e, 2));
            },
        }
    }
}

/// The walk that covers the whole chain yields the chain.
pub proof fn lemma_chain_is(cards: Seq<Option<Card>>, e: usize, n: nat)
    requires
        spans_chain(cards, e, n),
    ensures
        chain(cards, e) == chain_prefix(cards, e, n),
{
    let k = choose|k: nat| spans_chain(cards, e, k);
    if k <= n {
        lemma_chain_prefix_stable(cards, e, k, n);
    } else {
        lemma_chain_prefix_stable(cards, e, n, k);
    }
}

/// In a forest the stack from a card upwards is that card followed by the stack from the
/// card it carries; from a missing card upwards there is nothing.
pub proof fn lemma_chain(cards: Seq<Option<Card>>, e: usize)
    requires
        forest(cards),
    ensures
        !live(cards, e) ==> chain(cards, e) == Seq::<usize>::empty(),
        live(cards, e) && is_top(cards, e) ==> chain(cards, e) == seq![e],
        live(cards, e) && !is_top(cards, e) ==> chain(cards, e) == seq![e] + chain(
            cards,
            step_down(cards, e),
        ),
{
    let (rank, bound) = some_ranking(cards);
    lemma_chain_ends(cards, rank, bound, e);
    let n = choose|n: nat| spans_chain(cards, e, n);
    lemma_chain_is(cards, e, n);
    if live(cards, e) && !is_top(cards, e) {
        lemma_chain_is(cards, step_down(cards, e), (n - 1) as nat);
    }
}

/// The cards after `mover` has been laid on `top`: each of the two names the other.
pub open spec fn linked(cards: Seq<Option<Card>>, top: usize, mover: usize) -> Seq<Option<Card>> {
    cards.update(
        top as int,
        Some(Card { stack_child: Some(mover), ..cards[top as int]->0 }),
    ).update(mover as int, Some(Card { stack_parent: Some(top), ..cards[mover as int]->0 }))
}

/// The cards after `e` has been lifted off the card it lay on: `e` names no parent, and
/// the parent, if it is on the table, names no child.
pub open spec fn unlinked(cards: Seq<Option<Card>>, e: usize) -> Seq<Option<Card>> {
    let lifted = cards.update(e as int, Some(Card { stack_parent: None, ..cards[e as int]->0 }));
    match parent_of(cards, e) {
        Some(p) => if live(cards, p) && p != e {
            lifted.update(p as int, Some(Card { stack_child: None, ..cards[p as int]->0 }))
        } else {
            lifted
        },
        None => lifted,
    }
}

/// Laying the root of one stack on the top of another stack keeps the forest.
pub proof fn lemma_linked_forest(cards: Seq<Option<Card>>, top: usize, mover: usize)
    requires
        forest(cards),
        live(cards, top),
        live(cards, mover),
        is_root(cards, mover),
        is_top(cards, top),
        root_of(cards, top) != mover,
    ensures
        forest(linked(cards, top, mover)),
{
    let after = linked(cards, top, mover);
    let (rank, bound) = some_ranking(cards);
    lemma_root_of(cards, mover);
    lemma_root_of(cards, top);
    assert(top != mover);
    let shift = rank[top as int] + 1;
    let rank2 = Seq::new(
        cards.len(),
        |i: int|
            if root_of(cards, i as usize) == mover {
                rank[i] + shift
            } else {
                rank[i]
            },
    );
    let bound2 = bound + bound + 1;
    assert(live(cards, top));
    assert forall|e: usize| #[trigger] live(after, e) implies {
        &&& rank2[e as int] <= bound2
        &&& (parent_of(after, e) matches Some(p) ==> live(after, p) ==> rank2[p as int]
            < rank2[e as int])
    } by {
        assert(live(cards, e));
        lemma_root_of(cards, e);
        if e != mover {
            assert(parent_of(after, e) == parent_of(cards, e));
            match parent_of(cards, e) {
                Some(p) => {
                    if live(cards, p) {
                        lemma_root_of(cards, p);
                    }
                },
                None => {},
            }
        }
    }
    assert(ranked(after, rank2, bound2));
    assert forall|e: usize| #[trigger] live(after, e) implies {
        &&& (child_of(after, e) matches Some(c) ==> c < after.len() && (live(after, c)
            ==> parent_of(after, c) == Some(e)))
        &&& (parent_of(after, e) matches Some(p) ==> p < after.len() && (live(after, p)
            ==> child_of(after, p) == Some(e)))
    } by {
        assert(live(cards, e));
        match child_of(after, e) {
            Some(c) => {
                if live(after, c) {
                    assert(live(cards, c));
                }
            },
            None => {},
        }
        match parent_of(after, e) {
            Some(p) => {
                if live(after, p) {
                    assert(live(cards, p));
                }
            },
            None => {},
        }
    }
}

/// Lifting a card off the card it lay on keeps the forest.
pub proof fn lemma_unlinked_forest(cards: Seq<Option<Card>>, e: usize)
    requires
        forest(cards),
        live(cards, e),
    ensures
        forest(unlinked(cards, e)),
{
    let after = unlinked(cards, e);
    let (rank, bound) = some_ranking(cards);
    assert forall|k: usize| #[trigger] live(after, k) implies {
        &&& rank[k as int] <= bound
        &&& (parent_of(after, k) matches Some(p) ==> live(after, p) ==> rank[p as int]
            < rank[k as int])
    } by {
        assert(live(cards, k));
        match parent_of(after, k) {
            Some(p) => {
                if live(after, p) {
                    assert(live(cards, p));
                }
            },
            None => {},
        }
    }
    assert(ranked(after, rank, bound));
    assert forall|k: usize| #[trigger] live(after, k) implies {
        &&& (child_of(after, k) matches Some(c) ==> c < after.len() && (live(after, c)
            ==> parent_of(after, c) == Some(k)))
        &&& (parent_of(after, k) matches Some(p) ==> p < after.len() && (live(after, p)
            ==> child_of(after, p) == Some(k)))
    } by {
        assert(live(cards, k));
        assert(live(cards, e));
        match child_of(after, k) {
            Some(c) => {
                if live(after, c) {
                    assert(live(cards, c));
                }
            },
            None => {},
        }
        match parent_of(after, k) {
            Some(p) => {
                if live(after, p) {
                    assert(live(cards, p));
                }
            },
            None => {},
        }
    }
}

/// Whether `after` arises from `before` without any new reference: cards may have left,
/// cards that stayed refer to the same parent and child, and cards that came refer to none.
pub open spec fn keeps_links(before: Seq<Option<Card>>, after: Seq<Option<Card>>) -> bool {
    &&& before.len() <= after.len()
    &&& forall|e: usize| #[trigger]
        live(after, e) ==> {
            &&& live(before, e) ==> parent_of(after, e) == parent_of(before, e) && child_of(
                after,
                e,
            ) == child_of(before, e)
            &&& !live(before, e) ==> e >= before.len() && parent_of(after, e) is None
                && child_of(after, e) is None
        }
}

/// Whether every identity has the same parent and the same child in both.
pub open spec fn same_links(before: Seq<Option<Card>>, after: Seq<Option<Card>>) -> bool {
    forall|e: usize|
        #![trigger parent_of(after, e)]
        #![trigger child_of(after, e)]
        parent_of(after, e) == parent_of(before, e) && child_of(after, e) == child_of(before, e)
}

/// Whether every identity is on the table in both or in neither.
pub open spec fn same_cards(before: Seq<Option<Card>>, after: Seq<Option<Card>>) -> bool {
    forall|e: usize| #[trigger] live(after, e) == live(before, e)
}

/// A forest stays a forest as long as no reference is added.
pub proof fn lemma_keeps_links_forest(before: Seq<Option<Card>>, after: Seq<Option<Card>>)
    requires
        forest(before),
        keeps_links(before, after),
    ensures
        forest(after),
{
    let (rank, bound) = some_ranking(before);
    let rank2 = Seq::new(
        after.len(),
        |i: int|
            if i < before.len() {
                rank[i]
            } else {
                0nat
            },
    );
    assert forall|e: usize| #[trigger] live(after, e) implies {
        &&& rank2[e as int] <= bound
        &&& (parent_of(after, e) matches Some(p) ==> live(after, p) ==> rank2[p as int]
            < rank2[e as int])
    } by {
        if live(before, e) {
            match parent_of(after, e) {
                Some(p) => {
                    if live(after, p) {
                        if !live(before, p) {
                            assert(false);
                        }
                    }
                },
                None => {},
            }
        }
    }
    assert(ranked(after, rank2, bound));
    assert forall|e: usize| #[trigger] live(after, e) implies {
        &&& (child_of(after, e) matches Some(c) ==> c < after.len() && (live(after, c)
            ==> parent_of(after, c) == Some(e)))
        &&& (parent_of(after, e) matches Some(p) ==> p < after.len() && (live(after, p)
            ==> child_of(after, p) == Some(e)))
    } by {
        if live(before, e) {
            match child_of(after, e) {
                Some(c) => {
                    if live(after, c) {
                        if !live(before, c) {
                            assert(false);
                        }
                    }
                },
                None => {},
            }
            match parent_of(after, e) {
                Some(p) => {
                    if live(after, p) {
                        if !live(before, p) {
                            assert(false);
                        }
                    }
                },
                None => {},
            }
        }
    }
}

/// Walks towards the root go the same way where the parents are the same.
pub proof fn lemma_same_ancestor(
    before: Seq<Option<Card>>,
    after: Seq<Option<Card>>,
    e: usize,
    n: nat,
)
    requires
        same_links(before, after),
    ensures
        ancestor(after, e, n) == ancestor(before, e, n),
    decreases n,
{
    if n > 0 {
        assert(parent_of(after, e) == parent_of(before, e));
        lemma_same_ancestor(before, after, step_up(before, e), (n - 1) as nat);
    }
}

/// Walks towards the top go the same way where the children are the same.
pub proof fn lemma_same_descendant(
    before: Seq<Option<Card>>,
    after: Seq<Option<Card>>,
    e: usize,
    n: nat,
)
    requires
        same_links(before, after),
    ensures
        descendant(after, e, n) == descendant(before, e, n),
    decreases n,
{
    if n > 0 {
        assert(child_of(after, e) == child_of(before, e));
        lemma_same_descendant(before, after, step_down(before, e), (n - 1) as nat);
    }
}

/// Where the references are the same, every card has the same root and the same top.
pub proof fn lemma_same_links(before: Seq<Option<Card>>, after: Seq<Option<Card>>, e: usize)
    requires
        forest(before),
        same_links(before, after),
    ensures
        root_of(after, e) == root_of(before, e),
        top_of(after, e) == top_of(before, e),
{
    let (rank, bound) = some_ranking(before);
    lemma_walk_up_ends(before, rank, bound, e);
    let n = choose|n: nat| reaches_root(before, e, n);
    lemma_same_ancestor(before, after, e, n);
    assert(parent_of(after, ancestor(before, e, n)) == parent_of(before, ancestor(before, e, n)));
    lemma_root_is(before, e, n);
    lemma_root_is(after, e, n);
    lemma_walk_down_ends(before, rank, bound, e);
    let m = choose|m: nat| reaches_top(before, e, m);
    lemma_same_descendant(before, after, e, m);
    assert(child_of(after, descendant(before, e, m)) == child_of(before, descendant(before, e, m)));
    lemma_top_is(before, e, m);
    lemma_top_is(after, e, m);
}

/// In a forest no reference is left half done: a card either lies on nothing, or the
/// card it lies on names it as the card it carries. This holds of every card whose parent
/// is on the table; a reference to a card that has left the table stays as it was.
pub proof fn lemma_chain_integrity(cards: Seq<Option<Card>>, c: usize)
    requires
        forest(cards),
        live(cards, c),
        parent_of(cards, c) matches Some(p) ==> live(cards, p),
    ensures
        (parent_of(cards, c) is None) != (parent_of(cards, c) is Some && child_of(
            cards,
            parent_of(cards, c)->0,
        ) == Some(c)),
{
}

/// In a forest a card that carries another is named by that card as the card it lies on,
/// as long as the carried card is on the table.
pub proof fn lemma_chain_integrity_down(cards: Seq<Option<Card>>, c: usize)
    requires
        forest(cards),
        live(cards, c),
        child_of(cards, c) matches Some(k) ==> live(cards, k),
    ensures
        (child_of(cards, c) is None) != (child_of(cards, c) is Some && parent_of(
            cards,
            child_of(cards, c)->0,
        ) == Some(c)),
{
}

/// In a forest every stack has exactly one root, and every card of the stack agrees on
/// it: a card and the card it carries have the same root.
pub proof fn lemma_one_root(cards: Seq<Option<Card>>, c: usize)
    requires
        forest(cards),
        live(cards, c),
    ensures
        is_root(cards, root_of(cards, c)),
        child_of(cards, c) matches Some(k) ==> live(cards, k) ==> root_of(cards, k) == root_of(
            cards,
            c,
        ),
{
    lemma_root_of(cards, c);
    match child_of(cards, c) {
        Some(k) => {
            if live(cards, k) {
                lemma_root_of(cards, k);
            }
        },
        None => {},
    }
}

/// Two changes that each add no reference add none together.
pub proof fn lemma_keeps_links_twice(
    first: Seq<Option<Card>>,
    second: Seq<Option<Card>>,
    third: Seq<Option<Card>>,
)
    requires
        keeps_links(first, second),
        keeps_links(second, third),
    ensures
        keeps_links(first, third),
{
    assert forall|e: usize| #[trigger] live(third, e) implies {
        &&& live(first, e) ==> parent_of(third, e) == parent_of(first, e) && child_of(third, e)
            == child_of(first, e)
        &&& !live(first, e) ==> e >= first.len() && parent_of(third, e) is None && child_of(
            third,
            e,
        ) is None
    } by {
        if live(second, e) {
        }
    }
}

/// A change that leaves every card on the table and every reference alone adds none.
pub proof fn lemma_same_keeps_links(before: Seq<Option<Card>>, after: Seq<Option<Card>>)
    requires
        before.len() == after.len(),
        same_links(before, after),
        same_cards(before, after),
    ensures
        keeps_links(before, after),
{
    assert forall|e: usize| #[trigger] live(after, e) implies {
        &&& live(before, e) ==> parent_of(after, e) == parent_of(before, e) && child_of(after, e)
            == child_of(before, e)
        &&& !live(before, e) ==> e >= before.len() && parent_of(after, e) is None && child_of(
            after,
            e,
        ) is None
    } by {
        assert(live(before, e));
        assert(parent_of(after, e) == parent_of(before, e));
        assert(child_of(after, e) == child_of(before, e));
    }
}

/// Whether `after` arises from `before` without any change of slots: cards may have
/// left, cards that stayed are in the slot they were in, and cards that came are in none.
pub open spec fn keeps_slots(before: Seq<Option<Card>>, after: Seq<Option<Card>>) -> bool {
    &&& before.len() <= after.len()
    &&& forall|e: usize| #[trigger]
        live(after, e) ==> {
            &&& live(before, e) ==> after[e as int]->0.slotted_in_tile
                == before[e as int]->0.slotted_in_tile
            &&& !live(before, e) ==> e >= before.len() && after[e as int]->0.slotted_in_tile is None
        }
}

/// Two changes that each leave the slots alone leave them alone together.
pub proof fn lemma_keeps_slots_twice(
    first: Seq<Option<Card>>,
    second: Seq<Option<Card>>,
    third: Seq<Option<Card>>,
)
    requires
        keeps_slots(first, second),
        keeps_slots(second, third),
    ensures
        keeps_slots(first, third),
{
    assert forall|e: usize| #[trigger] live(third, e) implies {
        &&& live(first, e) ==> third[e as int]->0.slotted_in_tile
            == first[e as int]->0.slotted_in_tile
        &&& !live(first, e) ==> e >= first.len() && third[e as int]->0.slotted_in_tile is None
    } by {
        if live(second, e) {
        }
    }
}

} // verus!
