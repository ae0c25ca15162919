//! The player's hand: picking a card up, which lifts it out of its slot and off its
//! stack, and letting it go, which may put it into the slot of the tile under it.

use crate::board::{with_tile, PlacedTile, Tiles};
use crate::card::{Card, HoverPoint, SelectedCard};
use crate::cards::Cards;
use crate::chain::{
    child_of, is_root, keeps_slots, lemma_keeps_links_forest, lemma_unlinked_forest, live,
    parent_of, same_links, unlinked,
};
use crate::registry::{StackRoots, StackType};
use crate::stack::registry_tracks;
use crate::tile::{HoveredTile, Tile};
use crate::timer::{ProgressBar, ProgressBars};
use vstd::prelude::*;

verus! {

/// What the pointer did since the last tick.
#[derive(Clone, Copy, Debug)]
pub struct Pointer {
    /// Where the pointer is, if it is inside the window: over a point of the table, or
    /// over none.
    pub cursor: Option<HoverPoint>,
    /// What was under the pointer when the button went down, if it went down on something.
    pub pressed: Option<usize>,
    /// Whether the button came up.
    pub released: bool,
}

/// What the hand reads and changes.
pub struct Play {
    pub cards: Seq<Option<Card>>,
    pub bars: Seq<Option<ProgressBar>>,
    pub tiles: Seq<PlacedTile>,
    pub roots: Map<usize, StackType>,
    pub queued: Set<usize>,
    pub selected: SelectedCard,
    pub hover_point: HoverPoint,
}

/// The state that the stores hold.
pub open spec fn play_of(
    cards: Cards,
    bars: ProgressBars,
    tiles: Tiles,
    stack_roots: StackRoots,
    selected: SelectedCard,
    hover_point: HoverPoint,
) -> Play {
    Play {
        cards: cards@,
        bars: bars@,
        tiles: tiles@,
        roots: stack_roots.roots(),
        queued: stack_roots.queued(),
        selected,
        hover_point,
    }
}

/// Whether the player may pick `entity` up: it is a card on the table, and not an enemy.
pub open spec fn can_pick_up(cards: Seq<Option<Card>>, entity: usize) -> bool {
    live(cards, entity) && cards[entity as int]->0.player_controlled()
}

/// The slots and the cards agree when each card in a slot is held by the woods it names,
/// and each card that woods hold names those woods as long as it is on the table.
pub open spec fn slots_agree(cards: Seq<Option<Card>>, tiles: Seq<PlacedTile>) -> bool {
    &&& forall|e: usize| #[trigger]
        live(cards, e) ==> (cards[e as int]->0.slotted_in_tile matches Some(t) ==> t < tiles.len()
            && tiles[t as int].tile.held() == Some(e))
    &&& forall|t: usize|
        t < tiles.len() ==> ((#[trigger] tiles[t as int]).tile.held() matches Some(c) ==> c
            < cards.len() && (live(cards, c) ==> cards[c as int]->0.slotted_in_tile == Some(t)))
}

/// The card in the player's hand is in no slot.
pub open spec fn hand_free(cards: Seq<Option<Card>>, selected: SelectedCard) -> bool {
    selected matches SelectedCard::Card(c) ==> live(cards, c) ==> cards[c as int]->0.slotted_in_tile is None
}

/// The slots and the cards keep agreeing, and the hand stays free, through any change to
/// the cards that leaves the slots alone.
pub proof fn lemma_slots_kept(
    before: Seq<Option<Card>>,
    after: Seq<Option<Card>>,
    tiles: Seq<PlacedTile>,
    selected: SelectedCard,
)
    requires
        keeps_slots(before, after),
        slots_agree(before, tiles),
        hand_free(before, selected),
    ensures
        slots_agree(after, tiles),
        hand_free(after, selected),
{
    assert forall|e: usize| #[trigger] live(after, e) implies (after[e as int]->0.slotted_in_tile matches Some(
        t,
    ) ==> t < tiles.len() && tiles[t as int].tile.held() == Some(e)) by {
        if live(before, e) {
        }
    }
    assert forall|t: usize| t < tiles.len() implies ((#[trigger] tiles[t as int]).tile.held() matches Some(
        c,
    ) ==> c < after.len() && (live(after, c) ==> after[c as int]->0.slotted_in_tile == Some(t))) by {
        match tiles[t as int].tile.held() {
            Some(c) => {
                if live(after, c) {
                    assert(live(before, c));
                }
            },
            None => {},
        }
    }
    match selected {
        SelectedCard::Card(c) => {
            if live(after, c) && live(before, c) {
            }
        },
        SelectedCard::Nothing => {},
    }
}

/// The tiles after the card `entity` left the slot it was in: that slot is empty.
pub open spec fn tiles_after_unslot(s: Play, entity: usize) -> Seq<PlacedTile> {
    match s.cards[entity as int]->0.slotted_in_tile {
        Some(t) => if t < s.tiles.len() {
            with_tile(s.tiles, t, s.tiles[t as int].tile.emptied())
        } else {
            s.tiles
        },
        None => s.tiles,
    }
}

/// The bars after the card `entity` left the slot it was in: the production timer of
/// that tile has ended.
pub open spec fn bars_after_unslot(s: Play, entity: usize) -> Seq<Option<ProgressBar>> {
    match s.cards[entity as int]->0.slotted_in_tile {
        Some(t) => if t < s.tiles.len() {
            s.tiles[t as int].tile.without_timer(s.bars)
        } else {
            s.bars
        },
        None => s.bars,
    }
}

/// The cards after `entity` was picked up: it is in no slot and lies on nothing, and the
/// card it lay on carries nothing.
pub open spec fn cards_after_pick_up(cards: Seq<Option<Card>>, entity: usize) -> Seq<Option<Card>> {
    let lifted = unlinked(cards, entity);
    lifted.update(entity as int, Some(Card { slotted_in_tile: None, ..lifted[entity as int]->0 }))
}

/// The state after the player picked `entity` up. Only a card that the player may pick
/// up is affected. It becomes the card in hand. It leaves its slot, and the production of
/// that tile ends. It is lifted off the card it lay on: that card waits to be classified
/// anew, and if the picked card carries a card itself it is registered as the pending
/// root of its own stack and waits as well.
pub open spec fn picked_up(s: Play, entity: usize) -> Play {
    if can_pick_up(s.cards, entity) {
        let parent = parent_of(s.cards, entity);
        let heads_stack = parent is Some && child_of(s.cards, entity) is Some;
        Play {
            cards: cards_after_pick_up(s.cards, entity),
            bars: bars_after_unslot(s, entity),
            tiles: tiles_after_unslot(s, entity),
            roots: if heads_stack {
                s.roots.insert(entity, StackType::Pending)
            } else {
                s.roots
            },
            queued: match parent {
                Some(p) => if heads_stack {
                    s.queued.insert(p).insert(entity)
                } else {
                    s.queued.insert(p)
                },
                None => s.queued,
            },
            selected: SelectedCard::Card(entity),
            hover_point: s.hover_point,
        }
    } else {
        s
    }
}

/// Whether the card `entity`, let go over the tile `t`, goes into the slot of `t`: the
/// card is on the table and in no stack, the pointer is over the slot, and the slot takes
/// the card.
pub open spec fn drops_into(s: Play, entity: usize, t: usize) -> bool {
    &&& live(s.cards, entity)
    &&& !s.cards[entity as int]->0.stacked()
    &&& t < s.tiles.len()
    &&& s.hover_point matches HoverPoint::Point(point) && Tile::slot_covers(
        Tile::centre(s.tiles[t as int].location),
        point,
    )
    &&& s.tiles[t as int].tile.accepts(s.cards[entity as int]->0)
}

/// The state after the player let go of what was in hand over `hovered_tile`. The hand is
/// empty. If the card goes into the slot of the tile, the tile holds the card, the card
/// knows its tile, and the tile starts a fresh production timer.
pub open spec fn released(s: Play, hovered_tile: HoveredTile) -> Play {
    match s.selected {
        SelectedCard::Card(entity) => match hovered_tile.0 {
            Some(t) => if drops_into(s, entity, t) {
                Play {
                    cards: s.cards.update(
                        entity as int,
                        Some(Card { slotted_in_tile: Some(t), ..s.cards[entity as int]->0 }),
                    ),
                    bars: s.bars.push(Some(ProgressBar { current: 0, total: Tile::WOODS_TIME })),
                    tiles: with_tile(
                        s.tiles,
                        t,
                        Tile::Woods {
                            slotted_villager: Some(entity),
                            progress_bar: Some(s.bars.len() as usize),
                        },
                    ),
                    selected: SelectedCard::Nothing,
                    ..s
                }
            } else {
                Play { selected: SelectedCard::Nothing, ..s }
            },
            None => Play { selected: SelectedCard::Nothing, ..s },
        },
        SelectedCard::Nothing => s,
    }
}

/// The state after the pointer did `pointer`. A pointer inside the window sets the point
/// it is over, and picks up what the button went down on; a pointer outside changes
/// neither. Then, if the button came up, the hand lets go.
pub open spec fn after_pointer(s: Play, pointer: Pointer, hovered_tile: HoveredTile) -> Play {
    let moved = match pointer.cursor {
        Some(point) => {
            let over = Play { hover_point: point, ..s };
            match pointer.pressed {
                Some(entity) => picked_up(over, entity),
                None => over,
            }
        },
        None => s,
    };
    if pointer.released {
        released(moved, hovered_tile)
    } else {
        moved
    }
}

/// The player picks `entity` up.
pub fn pick_up(
    entity: usize,
    bars: &mut ProgressBars,
    selected_card: &mut SelectedCard,
    stack_roots: &mut StackRoots,
    cards: &mut Cards,
    tiles: &mut Tiles,
)
    requires
        old(cards).wf(),
    ensures
        forall|hover_point: HoverPoint|
            #[trigger] play_of(
                *final(cards),
                *final(bars),
                *final(tiles),
                *final(stack_roots),
                *final(selected_card),
                hover_point,
            ) == picked_up(
                play_of(
                    *old(cards),
                    *old(bars),
                    *old(tiles),
                    *old(stack_roots),
                    *old(selected_card),
                    hover_point,
                ),
                entity,
            ),
        final(cards).wf(),
        registry_tracks(old(cards)@, old(stack_roots).roots(), old(stack_roots).queued())
            ==> registry_tracks(
            final(cards)@,
            final(stack_roots).roots(),
            final(stack_roots).queued(),
        ),
        slots_agree(old(cards)@, old(tiles)@) && hand_free(old(cards)@, *old(selected_card))
            ==> slots_agree(final(cards)@, final(tiles)@) && hand_free(
            final(cards)@,
            *final(selected_card),
        ),
{
    let card = match cards.get(entity) {
        Some(card) => card,
        None => {
            return ;
        },
    };
    if !card.is_player_controlled() {
        return ;
    }
    if let Some(tile_entity) = card.slotted_in_tile {
        if let Some(placed) = tiles.get(tile_entity) {
            let mut tile = placed.tile;
            tile.unslot(bars);
            tiles.set_tile(tile_entity, tile);
        }
    }
    *selected_card = SelectedCard::Card(entity);
    proof {
        lemma_unlinked_forest(cards@, entity);
        lemma_keeps_links_forest(unlinked(cards@, entity), cards_after_pick_up(cards@, entity));
    }
    cards.replace(entity, Card { slotted_in_tile: None, stack_parent: None, ..card });
    if let Some(parent) = card.stack_parent {
        if parent != entity {
            if let Some(parent_card) = cards.get(parent) {
                cards.replace(parent, Card { stack_child: None, ..parent_card });
            }
        }
        stack_roots.queue(parent);
        if card.stack_child.is_some() {
            stack_roots.classify(entity, StackType::Pending);
            stack_roots.queue(entity);
        }
    }
    proof {
        assert(cards@ =~= cards_after_pick_up(old(cards)@, entity));
        assert forall|e: usize| #[trigger] live(cards@, e) implies cards@[e as int]->0.sound() by {
            assert(live(old(cards)@, e));
        }
        assert forall|e: usize|
            registry_tracks(old(cards)@, old(stack_roots).roots(), old(stack_roots).queued())
                && stack_roots.roots().contains_key(e) && !is_root(
                cards@,
                e,
            ) implies stack_roots.queued().contains(e) by {
            assert(e != entity);
            assert(parent_of(cards@, e) == parent_of(old(cards)@, e));
        }
        if slots_agree(old(cards)@, old(tiles)@) {
            assert(live(old(cards)@, entity));
            assert forall|e: usize| #[trigger] live(cards@, e) implies (cards@[e as int]->0.slotted_in_tile matches Some(
                t,
            ) ==> t < tiles@.len() && tiles@[t as int].tile.held() == Some(e)) by {
                assert(live(old(cards)@, e));
                if e != entity {
                    assert(cards@[e as int]->0.slotted_in_tile == old(
                        cards,
                    )@[e as int]->0.slotted_in_tile);
                }
            }
            assert forall|t: usize| t < tiles@.len() implies ((#[trigger] tiles@[t as int]).tile.held() matches Some(
                c,
            ) ==> c < cards@.len() && (live(cards@, c) ==> cards@[c as int]->0.slotted_in_tile
                == Some(t))) by {
                assert(t < old(tiles)@.len());
                let was = old(tiles)@[t as int];
                match tiles@[t as int].tile.held() {
                    Some(c) => {
                        assert(was.tile.held() == Some(c));
                        if live(cards@, c) {
                            assert(live(old(cards)@, c));
                            if c == entity {
                                assert(card.slotted_in_tile == Some(t));
                            }
                        }
                    },
                    None => {},
                }
            }
        }
    }
}

/// The player lets go of what is in hand, over `hovered_tile`.
pub fn release(
    hovered_tile: &HoveredTile,
    hover_point: &HoverPoint,
    bars: &mut ProgressBars,
    selected_card: &mut SelectedCard,
    cards: &mut Cards,
    tiles: &mut Tiles,
)
    requires
        old(cards).wf(),
    ensures
        forall|stack_roots: StackRoots|
            #[trigger] play_of(
                *final(cards),
                *final(bars),
                *final(tiles),
                stack_roots,
                *final(selected_card),
                *hover_point,
            ) == released(
                play_of(
                    *old(cards),
                    *old(bars),
                    *old(tiles),
                    stack_roots,
                    *old(selected_card),
                    *hover_point,
                ),
                *hovered_tile,
            ),
        final(cards).wf(),
        same_links(old(cards)@, final(cards)@),
        slots_agree(old(cards)@, old(tiles)@) && hand_free(old(cards)@, *old(selected_card))
            ==> slots_agree(final(cards)@, final(tiles)@) && hand_free(
            final(cards)@,
            *final(selected_card),
        ),
{
    if let SelectedCard::Card(entity) = *selected_card {
        *selected_card = SelectedCard::Nothing;
        if let Some(card) = cards.get(entity) {
            if !card.in_stack() {
                if let Some(tile_entity) = hovered_tile.0 {
                    if let Some(placed) = tiles.get(tile_entity) {
                        if let HoverPoint::Point(point) = *hover_point {
                            let centre = Tile::grid_to_translation(placed.location);
                            if Tile::slot_contains(&centre, &point) {
                                let mut tile = placed.tile;
                                if tile.try_slotting_card(bars, entity, &card) {
                                    tiles.set_tile(tile_entity, tile);
                                    cards.replace(
                                        entity,
                                        Card { slotted_in_tile: Some(tile_entity), ..card },
                                    );
                                    proof {
                                        lemma_keeps_links_forest(old(cards)@, cards@);
                                        assert forall|e: usize| #[trigger]
                                            live(cards@, e) implies cards@[e as int]->0.sound() by {
                                            assert(live(old(cards)@, e));
                                        }
                                    }
                                }
                            }
                        }
                    }
                }
            }
        }
    }
}

/// Handles what the pointer did: a press picks a card up, a release lets it go.
pub fn select_card(
    pointer: &Pointer,
    bars: &mut ProgressBars,
    hovered_tile: &HoveredTile,
    selected_card: &mut SelectedCard,
    stack_roots: &mut StackRoots,
    hover_point: &mut HoverPoint,
    cards: &mut Cards,
    tiles: &mut Tiles,
)
    requires
        old(cards).wf(),
    ensures
        play_of(
            *final(cards),
            *final(bars),
            *final(tiles),
            *final(stack_roots),
            *final(selected_card),
            *final(hover_point),
        ) == after_pointer(
            play_of(
                *old(cards),
                *old(bars),
                *old(tiles),
                *old(stack_roots),
                *old(selected_card),
                *old(hover_point),
            ),
            *pointer,
            *hovered_tile,
        ),
        final(cards).wf(),
        registry_tracks(old(cards)@, old(stack_roots).roots(), old(stack_roots).queued())
            ==> registry_tracks(
            final(cards)@,
            final(stack_roots).roots(),
            final(stack_roots).queued(),
        ),
        slots_agree(old(cards)@, old(tiles)@) && hand_free(old(cards)@, *old(selected_card))
            ==> slots_agree(final(cards)@, final(tiles)@) && hand_free(
            final(cards)@,
            *final(selected_card),
        ),
{
    if let Some(point) = pointer.cursor {
        *hover_point = point;
        if let Some(entity) = pointer.pressed {
            pick_up(entity, bars, selected_card, stack_roots, cards, tiles);
        }
    }
    if pointer.released {
        let ghost before = cards@;
        release(hovered_tile, hover_point, bars, selected_card, cards, tiles);
        proof {
            assert forall|e: usize|
                registry_tracks(before, stack_roots.roots(), stack_roots.queued())
                    && stack_roots.roots().contains_key(e) && !is_root(
                    cards@,
                    e,
                ) implies stack_roots.queued().contains(e) by {
                assert(parent_of(cards@, e) == parent_of(before, e));
            }
        }
    }
}

} // verus!
