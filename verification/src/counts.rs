//! Counting the cards of a stack by kind, and the recipe that a stack may follow.

use crate::card::CardType;
use vstd::prelude::*;

verus! {

/// A `bevy::utils::HashMap` from a kind of card to the number of cards of that kind. What
/// is said of it takes the derived equality and hash of [`CardType`] to tell its three
/// kinds apart and nothing more.
#[verifier::external_body]
pub struct TypeCounts {
    inner: bevy::utils::HashMap<CardType, usize>,
}

/// The entries that a [`TypeCounts`] holds.
pub uninterp spec fn type_counts_entries(c: TypeCounts) -> Map<CardType, usize>;

/// `HashMap::default` of `bevy::utils`: a map without entries.
#[verifier::external_body]
fn type_counts_new() -> (fresh: TypeCounts)
    ensures
        forall|kind: CardType| !type_counts_entries(fresh).contains_key(kind),
{
    TypeCounts { inner: bevy::utils::HashMap::default() }
}

/// `HashMap::get`: the number that `kind` is bound to, if it is bound.
#[verifier::external_body]
fn type_counts_get(c: &TypeCounts, kind: CardType) -> (found: Option<usize>)
    ensures
        found == (if type_counts_entries(*c).contains_key(kind) {
            Some(type_counts_entries(*c)[kind])
        } else {
            None
        }),
{
    c.inner.get(&kind).copied()
}

/// `HashMap::insert`: binds `kind` to `count` and leaves every other entry as it was.
#[verifier::external_body]
fn type_counts_insert(c: &mut TypeCounts, kind: CardType, count: usize)
    ensures
        type_counts_entries(*final(c)) == type_counts_entries(*old(c)).insert(kind, count),
{
    c.inner.insert(kind, count);
}

/// `HashMap::len`: the number of entries.
#[verifier::external_body]
fn type_counts_len(c: &TypeCounts) -> (n: usize)
    ensures
        n == type_counts_entries(*c).dom().len(),
{
    c.inner.len()
}

/// How often `kind` occurs in `kinds`.
pub open spec fn count_of(kinds: Seq<CardType>, kind: CardType) -> nat
    decreases kinds.len(),
{
    if kinds.len() == 0 {
        0
    } else {
        count_of(kinds.drop_last(), kind) + if kinds.last() == kind {
            1nat
        } else {
            0nat
        }
    }
}

/// The count of each kind that occurs in `kinds`; a kind that does not occur has no entry.
pub open spec fn tally(kinds: Seq<CardType>) -> Map<CardType, usize> {
    Map::new(
        |kind: CardType| count_of(kinds, kind) > 0,
        |kind: CardType| count_of(kinds, kind) as usize,
    )
}

/// The recipe for breeding: a stack of exactly two villagers.
pub open spec fn breeds(kinds: Seq<CardType>) -> bool {
    kinds.len() == 2 && kinds[0] == CardType::Villager && kinds[1] == CardType::Villager
}

/// No kind occurs more often than there are cards, and the counts of the three kinds add
/// up to the number of cards.
pub proof fn lemma_count_of(kinds: Seq<CardType>)
    ensures
        count_of(kinds, CardType::Villager) + count_of(kinds, CardType::Log) + count_of(
            kinds,
            CardType::Goblin,
        ) == kinds.len(),
    decreases kinds.len(),
{
    if kinds.len() > 0 {
        lemma_count_of(kinds.drop_last());
    }
}

/// A stack follows the breeding recipe exactly when it counts two villagers and villagers
/// are its only kind.
pub proof fn lemma_breeds(kinds: Seq<CardType>)
    ensures
        breeds(kinds) <==> (count_of(kinds, CardType::Villager) == 2 && count_of(
            kinds,
            CardType::Log,
        ) == 0 && count_of(kinds, CardType::Goblin) == 0),
{
    lemma_count_of(kinds);
    if kinds.len() == 2 {
        let one = kinds.drop_last();
        assert(one.len() == 1);
        let none = one.drop_last();
        assert(none.len() == 0);
        assert(one.last() == kinds[0]);
        assert(kinds.last() == kinds[1]);
        assert(count_of(none, CardType::Villager) == 0);
        assert(count_of(one, CardType::Villager) == if kinds[0] == CardType::Villager {
            1nat
        } else {
            0nat
        });
    }
}

impl View for TypeCounts {
    type V = Map<CardType, usize>;

    closed spec fn view(&self) -> Map<CardType, usize> {
        type_counts_entries(*self)
    }
}

impl TypeCounts {
    /// The counts of the kinds in `kinds`.
    pub fn of(kinds: &Vec<CardType>) -> (counts: TypeCounts)
        ensures
            counts@ == tally(kinds@),
    {
        let mut counts = type_counts_new();
        let mut i: usize = 0;
        assert(kinds@.take(0) =~= Seq::<CardType>::empty());
        assert(counts@ =~= tally(kinds@.take(0)));
        while i < kinds.len()
            invariant
                i <= kinds.len(),
                counts@ == tally(kinds@.take(i as int)),
            decreases kinds.len() - i,
        {
            let kind = kinds[i];
            let so_far: usize = match type_counts_get(&counts, kind) {
                Some(n) => n,
                None => 0,
            };
            proof {
                let before = kinds@.take(i as int);
                let after = kinds@.take(i + 1);
                assert(after.drop_last() =~= before);
                assert(after.last() == kind);
                lemma_count_of(before);
                assert(so_far == count_of(before, kind));
                assert forall|k: CardType| count_of(after, k) == count_of(before, k) + if k
                    == kind {
                    1nat
                } else {
                    0nat
                } by {}
            }
            type_counts_insert(&mut counts, kind, so_far + 1);
            assert(counts@ =~= tally(kinds@.take(i + 1)));
            i = i + 1;
        }
        assert(kinds@.take(i as int) =~= kinds@);
        counts
    }

    /// How many cards of `kind` were counted.
    pub fn get(&self, kind: CardType) -> (n: usize)
        ensures
            n == (if self@.contains_key(kind) {
                self@[kind]
            } else {
                0
            }),
    {
        match type_counts_get(self, kind) {
            Some(n) => n,
            None => 0,
        }
    }

    /// How many kinds were counted.
    pub fn len(&self) -> (n: usize)
        ensures
            n == self@.dom().len(),
    {
        type_counts_len(self)
    }

    /// Whether what was counted is a breeding pair: two villagers and nothing else.
    pub fn is_breeding_pair(&self) -> (pair: bool)
        ensures
            pair == breeding_pair(self@),
    {
        let villagers = self.get(CardType::Villager);
        let n = self.len();
        proof {
            lemma_kinds_len(self@.dom());
        }
        villagers == 2 && n == 1
    }
}

/// Whether `counts` holds two villagers and nothing else.
pub open spec fn breeding_pair(counts: Map<CardType, usize>) -> bool {
    &&& counts.contains_key(CardType::Villager)
    &&& counts[CardType::Villager] == 2
    &&& !counts.contains_key(CardType::Log)
    &&& !counts.contains_key(CardType::Goblin)
}

/// A set of kinds has as many members as there are kinds in it.
pub proof fn lemma_kinds_len(kinds: Set<CardType>)
    ensures
        kinds.finite(),
        kinds.len() == (if kinds.contains(CardType::Villager) {
            1nat
        } else {
            0nat
        }) + (if kinds.contains(CardType::Log) {
            1nat
        } else {
            0nat
        }) + (if kinds.contains(CardType::Goblin) {
            1nat
        } else {
            0nat
        }),
{
    let v = if kinds.contains(CardType::Villager) {
        Set::<CardType>::empty().insert(CardType::Villager)
    } else {
        Set::<CardType>::empty()
    };
    let l = if kinds.contains(CardType::Log) {
        v.insert(CardType::Log)
    } else {
        v
    };
    let g = if kinds.contains(CardType::Goblin) {
        l.insert(CardType::Goblin)
    } else {
        l
    };
    assert(kinds =~= g);
}

/// The tally of a stack that fits in memory is a breeding pair exactly when the stack
/// follows the breeding recipe.
pub proof fn lemma_tally_breeds(kinds: Seq<CardType>)
    requires
        kinds.len() <= usize::MAX,
    ensures
        breeding_pair(tally(kinds)) <==> breeds(kinds),
{
    lemma_breeds(kinds);
    lemma_count_of(kinds);
}

} // verus!
