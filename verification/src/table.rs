//! The table: everything the simulation holds, and the tick that runs its phases in
//! their fixed order.

use crate::board::{
    evaluate_tiles, hover_tile, hovered_after, layout_tile, on_spawn_tile, produced_all, set_up,
    spawn_tiles, PlacedTile, Production, Tiles,
};
use crate::breeding::{breeding_of, evaluate_stacks, evaluated, registry_accurate, Breeding};
use crate::card::{Card, CardType, HoverPoint, SelectedCard};
use crate::cards::{cards_sound, Cards};
use crate::chain::{forest, is_root, keeps_links, keeps_slots, lemma_keeps_links_twice, live};
use crate::combat::{after_pursuit, combat, fought_through, handle_enemies};
use crate::geometry::Position;
use crate::registry::{StackRoots, StackType};
use crate::select::{
    after_pointer, hand_free, lemma_slots_kept, play_of, select_card, slots_agree, Play, Pointer,
};
use crate::stack::{
    after_collisions, collide_cards, lemma_tracks_kept, registry_tracks, Collision, Stacks,
};
use crate::tile::{HoveredTile, Tile, TileGrid};
use crate::timer::{ProgressBar, ProgressBars};
use vstd::prelude::*;

verus! {

/// Everything on and around the table. A table is changed through its own functions
/// only, each of which leaves it well formed.
pub struct Table {
    cards: Cards,
    bars: ProgressBars,
    tiles: Tiles,
    tile_grid: TileGrid,
    stack_roots: StackRoots,
    selected_card: SelectedCard,
    hover_point: HoverPoint,
    hovered_tile: HoveredTile,
}

/// What happened since the last tick.
pub struct Input {
    /// What the pointer did.
    pub pointer: Pointer,
    /// The pairs of cards that began to touch.
    pub collisions: Vec<Collision>,
    /// The time that passed, in milliseconds.
    pub delta: u32,
}

/// The table as plain values.
pub struct TableView {
    pub cards: Seq<Option<Card>>,
    pub bars: Seq<Option<ProgressBar>>,
    pub tiles: Seq<PlacedTile>,
    pub grid: Map<(i32, i32), usize>,
    pub roots: Map<usize, StackType>,
    pub queued: Set<usize>,
    pub selected: SelectedCard,
    pub hover_point: HoverPoint,
    pub hovered_tile: HoveredTile,
}

impl View for Table {
    type V = TableView;

    closed spec fn view(&self) -> TableView {
        TableView {
            cards: self.cards@,
            bars: self.bars@,
            tiles: self.tiles@,
            grid: self.tile_grid@,
            roots: self.stack_roots.roots(),
            queued: self.stack_roots.queued(),
            selected: self.selected_card,
            hover_point: self.hover_point,
            hovered_tile: self.hovered_tile,
        }
    }
}

/// The hand's part of the table.
pub open spec fn play_part(v: TableView) -> Play {
    Play {
        cards: v.cards,
        bars: v.bars,
        tiles: v.tiles,
        roots: v.roots,
        queued: v.queued,
        selected: v.selected,
        hover_point: v.hover_point,
    }
}

/// The stacks' part of the table.
pub open spec fn stacks_part(v: TableView) -> Stacks {
    Stacks { cards: v.cards, roots: v.roots, queued: v.queued }
}

/// The part of the table that the evaluation of the stacks works on.
pub open spec fn breeding_part(v: TableView) -> Breeding {
    Breeding { cards: v.cards, bars: v.bars, roots: v.roots, queued: v.queued }
}

/// The phases of a tick.
#[derive(Clone, Copy, Debug, PartialEq, Eq, Structural)]
pub enum Phase {
    /// The hand follows the pointer: a card is picked up or let go.
    Selection,
    /// The tile under the pointer is found.
    Hover,
    /// The cards that began to touch are stacked.
    Stacking,
    /// The stacks are classified and their recipes run.
    Evaluation,
    /// The tiles produce.
    Production,
    /// The enemies choose their targets and move.
    Targeting,
    /// The blows are dealt.
    Damage,
}

impl Phase {
    /// The order in which the phases run in every tick.
    pub open spec fn order() -> Seq<Phase> {
        seq![
            Phase::Selection,
            Phase::Hover,
            Phase::Stacking,
            Phase::Evaluation,
            Phase::Production,
            Phase::Targeting,
            Phase::Damage,
        ]
    }

    /// The phases in the order in which they run in every tick.
    pub fn phases() -> (phases: Vec<Phase>)
        ensures
            phases@ == Phase::order(),
    {
        let mut phases: Vec<Phase> = Vec::new();
        phases.push(Phase::Selection);
        phases.push(Phase::Hover);
        phases.push(Phase::Stacking);
        phases.push(Phase::Evaluation);
        phases.push(Phase::Production);
        phases.push(Phase::Targeting);
        phases.push(Phase::Damage);
        assert(phases@ =~= Phase::order());
        phases
    }
}

/// Whether `after` is what the evaluation of the stacks leaves of `before`, for some
/// order in which the waiting stacks and the registered roots are taken.
pub open spec fn evaluation_leaves(before: TableView, after: TableView, delta: u32) -> bool {
    &&& after == (TableView {
        cards: after.cards,
        bars: after.bars,
        roots: after.roots,
        queued: after.queued,
        ..before
    })
    &&& exists|dirty: Seq<usize>, roots: Seq<usize>|
        evaluated(breeding_part(before), breeding_part(after), dirty, roots, delta)
}

/// Whether `after` is the table that the phase `phase` leaves of `before`.
pub open spec fn phase_leaves(before: TableView, after: TableView, phase: Phase, input: Input) -> bool {
    match phase {
        Phase::Selection => {
            let played = after_pointer(play_part(before), input.pointer, before.hovered_tile);
            after == (TableView {
                cards: played.cards,
                bars: played.bars,
                tiles: played.tiles,
                roots: played.roots,
                queued: played.queued,
                selected: played.selected,
                hover_point: played.hover_point,
                ..before
            })
        },
        Phase::Hover => after == (TableView {
            hovered_tile: hovered_after(
                before.hover_point,
                before.grid,
                before.hovered_tile,
                before.selected,
            ),
            ..before
        }),
        Phase::Stacking => {
            let stacked = after_collisions(stacks_part(before), before.selected, input.collisions@);
            after == (TableView {
                cards: stacked.cards,
                roots: stacked.roots,
                queued: stacked.queued,
                ..before
            })
        },
        Phase::Evaluation => evaluation_leaves(before, after, input.delta),
        Phase::Production => {
            let grown = produced_all(
                Production { cards: before.cards, bars: before.bars },
                before.tiles,
                input.delta,
            );
            after == (TableView { cards: grown.cards, bars: grown.bars, ..before })
        },
        Phase::Targeting => after == (TableView {
            cards: after_pursuit(before.cards, input.delta),
            ..before
        }),
        Phase::Damage => after == (TableView {
            cards: fought_through(before.cards, before.cards.len(), input.delta),
            ..before
        }),
    }
}

/// Whether `states` are the tables that a tick passes through: the table it starts from,
/// and after it the table that each phase leaves, the phases taken in their order.
pub open spec fn tick_passes(states: Seq<TableView>, input: Input) -> bool {
    &&& states.len() == Phase::order().len() + 1
    &&& forall|i: int|
        0 <= i < Phase::order().len() ==> phase_leaves(
            #[trigger] states[i],
            states[i + 1],
            Phase::order()[i],
            input,
        )
}

/// Whether `after` is a table that a tick leaves of `before`.
pub open spec fn ticks(before: TableView, after: TableView, input: Input) -> bool {
    exists|states: Seq<TableView>|
        #[trigger] tick_passes(states, input) && states[0] == before && states[7] == after
}

/// The villager that lies left of the middle at the start of a game.
pub open spec fn first_villager() -> Card {
    Card { translation: Position { x: -500i32, y: 0, z: 0 }, ..Card::of(CardType::Villager) }
}

/// The villager that lies right of the middle at the start of a game.
pub open spec fn second_villager() -> Card {
    Card { translation: Position { x: 500, y: 0, z: 0 }, ..Card::of(CardType::Villager) }
}

/// The board once the first `n` of its ten tiles are set up: the tile of the enemies,
/// the last to be set up, then runs the first timer.
pub open spec fn board_after_setup(n: nat) -> Seq<PlacedTile> {
    Seq::new(
        10,
        |k: int|
            if k < n {
                PlacedTile { tile: set_up(layout_tile(k).tile, 0), location: layout_tile(k).location }
            } else {
                layout_tile(k)
            },
    )
}

/// The grid once the first `n` tiles are set up: it finds each of them at its place.
pub open spec fn grid_after_setup(n: nat) -> Map<(i32, i32), usize>
    decreases n,
{
    if n == 0 {
        Map::empty()
    } else {
        grid_after_setup((n - 1) as nat).insert(
            (layout_tile(n - 1).location.x, layout_tile(n - 1).location.y),
            (n - 1) as usize,
        )
    }
}

/// The grid of the board finds the woods in three columns of three around the middle,
/// and the tile of the enemies above the middle column.
pub proof fn lemma_grid_after_setup(x: i32, y: i32)
    ensures
        -1 <= x <= 1 && -1 <= y <= 1 ==> grid_after_setup(10).contains_key((x, y))
            && grid_after_setup(10)[(x, y)] == 3 * (x + 1) + (y + 1),
        grid_after_setup(10).contains_key((0, 2)) && grid_after_setup(10)[(0, 2)] == 9,
        grid_after_setup(10).contains_key((x, y)) ==> (-1 <= x <= 1 && -1 <= y <= 1) || (x == 0
            && y == 2),
{
    reveal_with_fuel(grid_after_setup, 11);
}

impl Table {
    /// The table is well formed when its cards are, its registry accounts for them, its
    /// slots agree with them, and the card in hand is in no slot.
    pub closed spec fn wf(&self) -> bool {
        &&& self.cards.wf()
        &&& registry_tracks(self.cards@, self.stack_roots.roots(), self.stack_roots.queued())
        &&& slots_agree(self.cards@, self.tiles@)
        &&& hand_free(self.cards@, self.selected_card)
    }

    /// What a well-formed table holds: a forest of stacks of cards that are sound in
    /// themselves, a registry that accounts for them, slots that agree with them, and a
    /// hand that is free.
    pub proof fn lemma_wf(&self)
        requires
            self.wf(),
        ensures
            forest(self@.cards),
            cards_sound(self@.cards),
            registry_tracks(self@.cards, self@.roots, self@.queued),
            slots_agree(self@.cards, self@.tiles),
            hand_free(self@.cards, self@.selected),
    {
    }

    /// The cards on the table.
    pub fn cards(&self) -> (cards: &Cards)
        ensures
            cards@ == self@.cards,
            self.wf() ==> cards.wf(),
    {
        &self.cards
    }

    /// The progress bars that are running.
    pub fn bars(&self) -> (bars: &ProgressBars)
        ensures
            bars@ == self@.bars,
    {
        &self.bars
    }

    /// The tiles of the board.
    pub fn tiles(&self) -> (tiles: &Tiles)
        ensures
            tiles@ == self@.tiles,
    {
        &self.tiles
    }

    /// The grid that finds the tile at a place.
    pub fn tile_grid(&self) -> (tile_grid: &TileGrid)
        ensures
            tile_grid@ == self@.grid,
    {
        &self.tile_grid
    }

    /// The registry of stacks.
    pub fn stack_roots(&self) -> (stack_roots: &StackRoots)
        ensures
            stack_roots.roots() == self@.roots,
            stack_roots.queued() == self@.queued,
    {
        &self.stack_roots
    }

    /// The card in the player's hand.
    pub fn selected_card(&self) -> (selected: SelectedCard)
        ensures
            selected == self@.selected,
    {
        self.selected_card
    }

    /// The point of the table under the pointer.
    pub fn hover_point(&self) -> (point: HoverPoint)
        ensures
            point == self@.hover_point,
    {
        self.hover_point
    }

    /// The tile under the pointer.
    pub fn hovered_tile(&self) -> (hovered: HoveredTile)
        ensures
            hovered == self@.hovered_tile,
    {
        self.hovered_tile
    }

    /// Lays a fresh card of the given kind at `translation` and returns its identity.
    pub fn spawn_card(&mut self, card_type: CardType, translation: Position) -> (entity: usize)
        requires
            old(self).wf(),
        ensures
            final(self).wf(),
            entity == old(self)@.cards.len(),
            final(self)@ == (TableView {
                cards: old(self)@.cards.push(
                    Some(Card { translation, ..Card::of(card_type) }),
                ),
                ..old(self)@
            }),
    {
        let entity = self.cards.spawn(card_type, translation);
        proof {
            assert(keeps_links(old(self).cards@, self.cards@));
            assert(keeps_slots(old(self).cards@, self.cards@));
            lemma_tracks_kept(
                old(self).cards@,
                self.cards@,
                self.stack_roots.roots(),
                self.stack_roots.queued(),
            );
            lemma_slots_kept(old(self).cards@, self.cards@, self.tiles@, self.selected_card);
        }
        entity
    }

    /// Moves the card under `entity`, if it is on the table, to `translation`.
    pub fn set_translation(&mut self, entity: usize, translation: Position)
        requires
            old(self).wf(),
        ensures
            final(self).wf(),
            final(self)@ == (TableView {
                cards: if live(old(self)@.cards, entity) {
                    old(self)@.cards.update(
                        entity as int,
                        Some(Card { translation, ..old(self)@.cards[entity as int]->0 }),
                    )
                } else {
                    old(self)@.cards
                },
                ..old(self)@
            }),
    {
        self.cards.set_translation(entity, translation);
        proof {
            assert(keeps_links(old(self).cards@, self.cards@));
            assert(keeps_slots(old(self).cards@, self.cards@));
            lemma_tracks_kept(
                old(self).cards@,
                self.cards@,
                self.stack_roots.roots(),
                self.stack_roots.queued(),
            );
            lemma_slots_kept(old(self).cards@, self.cards@, self.tiles@, self.selected_card);
        }
    }

    /// An empty table.
    pub fn new() -> (table: Table)
        ensures
            table.wf(),
            table@.cards == Seq::<Option<Card>>::empty(),
            table@.bars == Seq::<Option<ProgressBar>>::empty(),
            table@.tiles == Seq::<PlacedTile>::empty(),
            table@.grid == Map::<(i32, i32), usize>::empty(),
            table@.roots == Map::<usize, StackType>::empty(),
            table@.queued == Set::<usize>::empty(),
            table@.selected == SelectedCard::Nothing,
            table@.hover_point == HoverPoint::Nothing,
            table@.hovered_tile == HoveredTile(None),
    {
        Table {
            cards: Cards::new(),
            bars: ProgressBars::new(),
            tiles: Tiles::new(),
            tile_grid: TileGrid::new(),
            stack_roots: StackRoots::new(),
            selected_card: SelectedCard::Nothing,
            hover_point: HoverPoint::Nothing,
            hovered_tile: HoveredTile(None),
        }
    }

    /// The table at the start of a game: the board is laid out and set up, and two
    /// villagers lie side by side in the middle.
    pub fn setup() -> (table: Table)
        ensures
            table.wf(),
            table@.cards == seq![Some(first_villager()), Some(second_villager())],
            table@.bars == seq![Some(ProgressBar { current: 0, total: Tile::ENEMIES_TIME })],
            table@.tiles == board_after_setup(10),
            table@.grid == grid_after_setup(10),
            table@.roots == Map::<usize, StackType>::empty(),
            table@.queued == Set::<usize>::empty(),
            table@.selected == SelectedCard::Nothing,
            table@.hover_point == HoverPoint::Nothing,
            table@.hovered_tile == HoveredTile(None),
    {
        let mut table = Table::new();
        spawn_tiles(&mut table.tiles);
        assert(table.tiles@ =~= board_after_setup(0));
        let mut i: usize = 0;
        while i < 10
            invariant
                i <= 10,
                table.tiles@ == board_after_setup(i as nat),
                table.tile_grid@ == grid_after_setup(i as nat),
                i < 10 ==> table.bars@ == Seq::<Option<ProgressBar>>::empty(),
                i == 10 ==> table.bars@ == seq![
                    Some(ProgressBar { current: 0, total: Tile::ENEMIES_TIME }),
                ],
                table.cards.wf(),
                table.cards@ == Seq::<Option<Card>>::empty(),
                table.stack_roots.roots() == Map::<usize, StackType>::empty(),
                table.stack_roots.queued() == Set::<usize>::empty(),
                table.selected_card == SelectedCard::Nothing,
                table.hover_point == HoverPoint::Nothing,
                table.hovered_tile == HoveredTile(None),
            decreases 10 - i,
        {
            on_spawn_tile(i, &mut table.bars, &mut table.tile_grid, &mut table.tiles);
            assert(table.tiles@ =~= board_after_setup((i + 1) as nat));
            if i == 9 {
                assert(table.bars@ =~= seq![
                    Some(ProgressBar { current: 0, total: Tile::ENEMIES_TIME }),
                ]);
            }
            i = i + 1;
        }
        table.cards.spawn(CardType::Villager, Position { x: -500, y: 0, z: 0 });
        table.cards.spawn(CardType::Villager, Position { x: 500, y: 0, z: 0 });
        assert(table.cards@ =~= seq![Some(first_villager()), Some(second_villager())]);
        table
    }

    /// Runs the phase `phase` of a tick. After the evaluation of the stacks every
    /// registered identity is the root of its stack, and the phases that follow it add no
    /// reference between cards.
    pub fn run(&mut self, phase: Phase, input: &Input)
        requires
            old(self).wf(),
        ensures
            final(self).wf(),
            phase_leaves(old(self)@, final(self)@, phase, *input),
            phase == Phase::Evaluation ==> registry_accurate(final(self)@.cards, final(self)@.roots),
            phase == Phase::Production || phase == Phase::Targeting || phase == Phase::Damage
                ==> keeps_links(old(self)@.cards, final(self)@.cards),
    {
        match phase {
            Phase::Selection => {
                select_card(
                    &input.pointer,
                    &mut self.bars,
                    &self.hovered_tile,
                    &mut self.selected_card,
                    &mut self.stack_roots,
                    &mut self.hover_point,
                    &mut self.cards,
                    &mut self.tiles,
                );
                proof {
                    let before = play_of(
                        old(self).cards,
                        old(self).bars,
                        old(self).tiles,
                        old(self).stack_roots,
                        old(self).selected_card,
                        old(self).hover_point,
                    );
                    assert(before == play_part(old(self)@));
                    let played = after_pointer(before, input.pointer, old(self).hovered_tile);
                    assert(played == play_of(
                        self.cards,
                        self.bars,
                        self.tiles,
                        self.stack_roots,
                        self.selected_card,
                        self.hover_point,
                    ));
                }
            },
            Phase::Hover => {
                hover_tile(
                    &self.hover_point,
                    &self.tile_grid,
                    &mut self.hovered_tile,
                    &self.selected_card,
                );
            },
            Phase::Stacking => {
                collide_cards(
                    &input.collisions,
                    &mut self.stack_roots,
                    &self.selected_card,
                    &mut self.cards,
                );
                proof {
                    lemma_slots_kept(
                        old(self).cards@,
                        self.cards@,
                        self.tiles@,
                        self.selected_card,
                    );
                }
            },
            Phase::Evaluation => {
                evaluate_stacks(&mut self.bars, input.delta, &mut self.stack_roots, &mut self.cards);
                proof {
                    let before = breeding_of(old(self).cards, old(self).bars, old(self).stack_roots);
                    let after = breeding_of(self.cards, self.bars, self.stack_roots);
                    let (dirty, roots) = choose|dirty: Seq<usize>, roots: Seq<usize>|
                        evaluated(before, after, dirty, roots, input.delta);
                    assert(before == breeding_part(old(self)@));
                    assert(after == breeding_part(self@));
                    assert(evaluated(
                        breeding_part(old(self)@),
                        breeding_part(self@),
                        dirty,
                        roots,
                        input.delta,
                    ));
                    lemma_slots_kept(
                        old(self).cards@,
                        self.cards@,
                        self.tiles@,
                        self.selected_card,
                    );
                }
            },
            Phase::Production => {
                evaluate_tiles(input.delta, &self.tiles, &mut self.bars, &mut self.cards);
                proof {
                    self.kept(old(self).cards@);
                }
            },
            Phase::Targeting => {
                handle_enemies(input.delta, &mut self.cards);
                proof {
                    self.kept(old(self).cards@);
                }
            },
            Phase::Damage => {
                combat(input.delta, &mut self.cards);
                proof {
                    self.kept(old(self).cards@);
                }
            },
        }
    }

    /// The registry keeps accounting for the cards, the slots keep agreeing with them and
    /// the hand stays free when the cards change without a new reference or a change of
    /// slots.
    proof fn kept(&self, before: Seq<Option<Card>>)
        requires
            keeps_links(before, self.cards@),
            keeps_slots(before, self.cards@),
            registry_tracks(before, self.stack_roots.roots(), self.stack_roots.queued()),
            slots_agree(before, self.tiles@),
            hand_free(before, self.selected_card),
        ensures
            registry_tracks(self.cards@, self.stack_roots.roots(), self.stack_roots.queued()),
            slots_agree(self.cards@, self.tiles@),
            hand_free(self.cards@, self.selected_card),
    {
        lemma_tracks_kept(
            before,
            self.cards@,
            self.stack_roots.roots(),
            self.stack_roots.queued(),
        );
        lemma_slots_kept(before, self.cards@, self.tiles@, self.selected_card);
    }

    /// Runs one tick: every phase once, in the order of [`Phase::order`]. After the tick
    /// the table is well formed, and every registered identity is the root of its stack.
    pub fn tick(&mut self, input: &Input)
        requires
            old(self).wf(),
        ensures
            final(self).wf(),
            ticks(old(self)@, final(self)@, *input),
            registry_accurate(final(self)@.cards, final(self)@.roots),
    {
        self.run(Phase::Selection, input);
        let ghost selected = self@;
        self.run(Phase::Hover, input);
        let ghost hovered = self@;
        self.run(Phase::Stacking, input);
        let ghost stacked = self@;
        self.run(Phase::Evaluation, input);
        let ghost evaluated = self@;
        self.run(Phase::Production, input);
        let ghost produced = self@;
        self.run(Phase::Targeting, input);
        let ghost targeted = self@;
        self.run(Phase::Damage, input);
        proof {
            let states = seq![
                old(self)@,
                selected,
                hovered,
                stacked,
                evaluated,
                produced,
                targeted,
                self@,
            ];
            assert(tick_passes(states, *input));
            lemma_keeps_links_twice(evaluated.cards, produced.cards, targeted.cards);
            lemma_keeps_links_twice(evaluated.cards, targeted.cards, self@.cards);
            assert forall|e: usize| self@.roots.contains_key(e) implies is_root(self@.cards, e) by {
                assert(is_root(evaluated.cards, e));
                if live(self@.cards, e) {
                }
            }
        }
    }
}

impl Default for Table {
    fn default() -> (table: Table)
        ensures
            table.wf(),
    {
        Table::new()
    }
}

} // verus!
