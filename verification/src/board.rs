//! The board: the tiles that were laid out, what they produce as time passes, and which
//! of them the pointer is over.

use crate::card::{Card, CardClass, CardType, HoverPoint, SelectedCard};
use crate::cards::Cards;
use crate::geometry::{clamp_i32, Position};
use crate::tile::{HoveredTile, Tile, TileGrid, TileGridLocation};
use crate::timer::{running, Cooldown, ProgressBar, ProgressBars};
use crate::chain::{keeps_links, keeps_slots, lemma_keeps_links_twice, lemma_keeps_slots_twice};
use vstd::prelude::*;

verus! {

/// A tile together with its place in the grid.
#[derive(Clone, Copy, Debug, PartialEq, Eq, Structural)]
pub struct PlacedTile {
    pub tile: Tile,
    pub location: TileGridLocation,
}

/// The tiles of the board, each under a lasting identity. Tiles never leave the board.
pub struct Tiles {
    slots: Vec<PlacedTile>,
}

impl View for Tiles {
    type V = Seq<PlacedTile>;

    closed spec fn view(&self) -> Seq<PlacedTile> {
        self.slots@
    }
}

/// The tiles after the tile under `entity` was changed to `tile`. Changing a tile that is
/// not on the board changes nothing.
pub open spec fn with_tile(tiles: Seq<PlacedTile>, entity: usize, tile: Tile) -> Seq<PlacedTile> {
    if entity < tiles.len() {
        tiles.update(entity as int, PlacedTile { tile, location: tiles[entity as int].location })
    } else {
        tiles
    }
}

impl Tiles {
    /// A board without tiles.
    pub fn new() -> (tiles: Tiles)
        ensures
            tiles@ == Seq::<PlacedTile>::empty(),
    {
        Tiles { slots: Vec::new() }
    }

    /// How many tiles the board has.
    pub fn len(&self) -> (n: usize)
        ensures
            n == self@.len(),
    {
        self.slots.len()
    }

    /// The tile under `entity`, if there is one.
    pub fn get(&self, entity: usize) -> (placed: Option<PlacedTile>)
        ensures
            placed == (if entity < self@.len() {
                Some(self@[entity as int])
            } else {
                None
            }),
    {
        if entity < self.slots.len() {
            Some(self.slots[entity])
        } else {
            None
        }
    }

    /// Lays `tile` at `location` and returns its identity.
    pub fn spawn(&mut self, tile: Tile, location: TileGridLocation) -> (entity: usize)
        ensures
            entity == old(self)@.len(),
            final(self)@ == old(self)@.push(PlacedTile { tile, location }),
    {
        let entity = self.slots.len();
        self.slots.push(PlacedTile { tile, location });
        entity
    }

    /// Changes the tile under `entity` to `tile`.
    pub fn set_tile(&mut self, entity: usize, tile: Tile)
        ensures
            final(self)@ == with_tile(old(self)@, entity, tile),
    {
        if entity < self.slots.len() {
            let location = self.slots[entity].location;
            self.slots[entity] = PlacedTile { tile, location };
        }
    }
}

impl Default for Tiles {
    fn default() -> (tiles: Tiles)
        ensures
            tiles@ == Seq::<PlacedTile>::empty(),
    {
        Tiles::new()
    }
}

/// The tile that is laid out as number `k`: nine woods in three columns around the
/// middle of the table, then the tile of the enemies above the middle column.
pub open spec fn layout_tile(k: int) -> PlacedTile {
    if k < 9 {
        PlacedTile {
            tile: Tile::Woods { slotted_villager: None, progress_bar: None },
            location: TileGridLocation { x: (k / 3 - 1) as i32, y: (k % 3 - 1) as i32 },
        }
    } else {
        PlacedTile {
            tile: Tile::Enemies { progress_bar: None },
            location: TileGridLocation { x: 0, y: 2 },
        }
    }
}

/// The first `n` tiles that are laid out.
pub open spec fn layout(n: nat) -> Seq<PlacedTile> {
    Seq::new(n, |k: int| layout_tile(k))
}

/// Lays out the board: nine woods and the tile of the enemies.
pub fn spawn_tiles(tiles: &mut Tiles)
    ensures
        final(tiles)@ == old(tiles)@ + layout(10),
{
    let mut k: i32 = 0;
    assert(tiles@ =~= old(tiles)@ + layout(0));
    while k < 9
        invariant
            0 <= k <= 9,
            tiles@ == old(tiles)@ + layout(k as nat),
        decreases 9 - k,
    {
        tiles.spawn(
            Tile::Woods { slotted_villager: None, progress_bar: None },
            TileGridLocation { x: k / 3 - 1, y: k % 3 - 1 },
        );
        assert(tiles@ =~= old(tiles)@ + layout((k + 1) as nat));
        k = k + 1;
    }
    tiles.spawn(Tile::Enemies { progress_bar: None }, TileGridLocation { x: 0, y: 2 });
    assert(tiles@ =~= old(tiles)@ + layout(10));
}

/// The tile `tile` once it has been set up: the tile of the enemies runs the timer
/// `progress_bar`, woods wait for a villager.
pub open spec fn set_up(tile: Tile, progress_bar: usize) -> Tile {
    match tile {
        Tile::Enemies { .. } => Tile::Enemies { progress_bar: Some(progress_bar) },
        _ => tile,
    }
}

/// Sets up the tile `entity` that was laid on the board: the grid learns its place, and
/// the tile of the enemies starts its timer. Setting up a tile that is not on the board
/// changes nothing.
pub fn on_spawn_tile(
    entity: usize,
    bars: &mut ProgressBars,
    tile_grid: &mut TileGrid,
    tiles: &mut Tiles,
)
    ensures
        entity >= old(tiles)@.len() ==> final(tiles)@ == old(tiles)@ && final(tile_grid)@ == old(
            tile_grid,
        )@ && final(bars)@ == old(bars)@,
        entity < old(tiles)@.len() ==> {
            let placed = old(tiles)@[entity as int];
            &&& final(tile_grid)@ == old(tile_grid)@.insert(
                (placed.location.x, placed.location.y),
                entity,
            )
            &&& final(tiles)@ == with_tile(
                old(tiles)@,
                entity,
                set_up(placed.tile, old(bars)@.len() as usize),
            )
            &&& final(bars)@ == (if placed.tile is Enemies {
                old(bars)@.push(Some(ProgressBar { current: 0, total: Tile::ENEMIES_TIME }))
            } else {
                old(bars)@
            })
        },
{
    if let Some(placed) = tiles.get(entity) {
        tile_grid.insert(placed.location, entity);
        match placed.tile {
            Tile::Woods { .. } => {
                assert(tiles@ =~= with_tile(tiles@, entity, placed.tile));
            },
            Tile::Enemies { .. } => {
                let progress_bar = bars.spawn(Tile::ENEMIES_TIME);
                tiles.set_tile(entity, Tile::Enemies { progress_bar: Some(progress_bar) });
            },
        }
    }
}

/// What the production of the tiles reads and changes: the cards and the progress bars.
pub struct Production {
    pub cards: Seq<Option<Card>>,
    pub bars: Seq<Option<ProgressBar>>,
}

/// The kind of card that a tile produces.
pub open spec fn yield_kind(tile: Tile) -> CardType {
    match tile {
        Tile::Woods { .. } => CardType::Log,
        Tile::Enemies { .. } => CardType::Goblin,
    }
}

/// Where a tile lays what it produces: woods beside their centre, the tile of the
/// enemies on its centre.
pub open spec fn yield_position(placed: PlacedTile) -> Position {
    let centre = Tile::centre(placed.location);
    match placed.tile {
        Tile::Woods { .. } => Position {
            x: clamp_i32(centre.x + Tile::SPAWN_OFFSET) as i32,
            y: centre.y,
            z: 0,
        },
        Tile::Enemies { .. } => Position { x: centre.x, y: centre.y, z: 0 },
    }
}

/// The state after the tile `placed` worked for `delta` milliseconds. Only a tile whose
/// timer runs is affected: its timer advances, and when the timer is full the tile lays
/// a card of its kind and the timer starts again from zero.
pub open spec fn produced(s: Production, placed: PlacedTile, delta: u32) -> Production {
    match placed.tile.timer() {
        Some(progress_bar) => {
            if running(s.bars, progress_bar) {
                let bar = s.bars[progress_bar as int]->0.added(delta);
                if bar.finished_spec() {
                    Production {
                        cards: s.cards.push(
                            Some(
                                Card {
                                    translation: yield_position(placed),
                                    ..Card::of(yield_kind(placed.tile))
                                },
                            ),
                        ),
                        bars: s.bars.update(
                            progress_bar as int,
                            Some(ProgressBar { current: 0, total: bar.total }),
                        ),
                    }
                } else {
                    Production { cards: s.cards, bars: s.bars.update(progress_bar as int, Some(bar)) }
                }
            } else {
                s
            }
        },
        None => s,
    }
}

/// The state after each of `tiles` worked for `delta` milliseconds, in turn.
pub open spec fn produced_all(s: Production, tiles: Seq<PlacedTile>, delta: u32) -> Production
    decreases tiles.len(),
{
    if tiles.len() == 0 {
        s
    } else {
        produced(produced_all(s, tiles.drop_last(), delta), tiles.last(), delta)
    }
}

/// Lets the tile `placed` work for `delta` milliseconds.
pub fn evaluate_tile(placed: &PlacedTile, delta: u32, bars: &mut ProgressBars, cards: &mut Cards)
    requires
        old(cards).wf(),
    ensures
        final(cards).wf(),
        keeps_links(old(cards)@, final(cards)@),
        keeps_slots(old(cards)@, final(cards)@),
        (Production { cards: final(cards)@, bars: final(bars)@ }) == produced(
            Production { cards: old(cards)@, bars: old(bars)@ },
            *placed,
            delta,
        ),
{
    let centre = Tile::grid_to_translation(placed.location);
    match placed.tile {
        Tile::Woods { slotted_villager, progress_bar } => {
            if let Some(bar_entity) = progress_bar {
                if let Some(mut bar) = bars.get(bar_entity) {
                    bar.add(delta);
                    if bar.finished() {
                        let beside = centre.shifted_x(Tile::SPAWN_OFFSET);
                        cards.spawn(CardType::Log, Position { x: beside.x, y: beside.y, z: 0 });
                        bar.reset();
                    }
                    bars.set(bar_entity, bar);
                }
            }
        },
        Tile::Enemies { progress_bar } => {
            if let Some(bar_entity) = progress_bar {
                if let Some(mut bar) = bars.get(bar_entity) {
                    bar.add(delta);
                    if bar.finished() {
                        cards.spawn(CardType::Goblin, Position { x: centre.x, y: centre.y, z: 0 });
                        bar.reset();
                    }
                    bars.set(bar_entity, bar);
                }
            }
        },
    }
}

/// Lets every tile of the board work for `delta` milliseconds, in the order in which the
/// tiles were laid.
pub fn evaluate_tiles(delta: u32, tiles: &Tiles, bars: &mut ProgressBars, cards: &mut Cards)
    requires
        old(cards).wf(),
    ensures
        final(cards).wf(),
        keeps_links(old(cards)@, final(cards)@),
        keeps_slots(old(cards)@, final(cards)@),
        (Production { cards: final(cards)@, bars: final(bars)@ }) == produced_all(
            Production { cards: old(cards)@, bars: old(bars)@ },
            tiles@,
            delta,
        ),
{
    let mut i: usize = 0;
    assert(tiles@.take(0) =~= Seq::<PlacedTile>::empty());
    while i < tiles.len()
        invariant
            i <= tiles@.len(),
            cards.wf(),
            keeps_links(old(cards)@, cards@),
            keeps_slots(old(cards)@, cards@),
            (Production { cards: cards@, bars: bars@ }) == produced_all(
                Production { cards: old(cards)@, bars: old(bars)@ },
                tiles@.take(i as int),
                delta,
            ),
        decreases tiles@.len() - i,
    {
        proof {
            assert(tiles@.take(i + 1).drop_last() =~= tiles@.take(i as int));
            assert(tiles@.take(i + 1).last() == tiles@[i as int]);
        }
        let ghost before = cards@;
        if let Some(placed) = tiles.get(i) {
            evaluate_tile(&placed, delta, bars, cards);
        }
        proof {
            lemma_keeps_links_twice(old(cards)@, before, cards@);
            lemma_keeps_slots_twice(old(cards)@, before, cards@);
        }
        i = i + 1;
    }
    assert(tiles@.take(i as int) =~= tiles@);
}

/// The tile under the pointer after the pointer moved. While the player holds a card, it
/// is the tile in whose cell the pointer is, if the pointer is over the table and a tile
/// lies there. While the player holds nothing, it stays what it was.
pub open spec fn hovered_after(
    hover_point: HoverPoint,
    tile_grid: Map<(i32, i32), usize>,
    hovered_tile: HoveredTile,
    selected_card: SelectedCard,
) -> HoveredTile {
    match selected_card {
        SelectedCard::Card(_) => match hover_point {
            HoverPoint::Point(point) => {
                let cell = Tile::cell(point);
                if tile_grid.contains_key((cell.x, cell.y)) {
                    HoveredTile(Some(tile_grid[(cell.x, cell.y)]))
                } else {
                    HoveredTile(None)
                }
            },
            HoverPoint::Nothing => HoveredTile(None),
        },
        SelectedCard::Nothing => hovered_tile,
    }
}

/// Finds the tile under the pointer.
pub fn hover_tile(
    hover_point: &HoverPoint,
    tile_grid: &TileGrid,
    hovered_tile: &mut HoveredTile,
    selected_card: &SelectedCard,
)
    ensures
        *final(hovered_tile) == hovered_after(
            *hover_point,
            tile_grid@,
            *old(hovered_tile),
            *selected_card,
        ),
{
    if let SelectedCard::Card(_) = *selected_card {
        if let HoverPoint::Point(point) = *hover_point {
            let location = Tile::translation_to_grid(point);
            *hovered_tile = HoveredTile(tile_grid.get(location));
        } else {
            *hovered_tile = HoveredTile(None);
        }
    }
}

/// Whether the slot of a tile is to be shown: the slot of woods shows while it holds a
/// card, and while the player holds a card over the tile.
pub open spec fn slot_shown(
    tile: Tile,
    tile_entity: usize,
    hovered_tile: HoveredTile,
    selected_card: SelectedCard,
) -> bool {
    tile matches Tile::Woods { slotted_villager, .. } && (slotted_villager is Some || (
    selected_card is Card && hovered_tile.0 == Some(tile_entity)))
}

/// Whether the slot of the tile `tile_entity` is to be shown.
pub fn slot_visible(
    tile: &Tile,
    tile_entity: usize,
    hovered_tile: &HoveredTile,
    selected_card: &SelectedCard,
) -> (shown: bool)
    ensures
        shown == slot_shown(*tile, tile_entity, *hovered_tile, *selected_card),
{
    match tile {
        Tile::Woods { slotted_villager, .. } => {
            if slotted_villager.is_some() {
                true
            } else {
                match (selected_card, hovered_tile.0) {
                    (SelectedCard::Card(_), Some(hovered)) => hovered == tile_entity,
                    _ => false,
                }
            }
        },
        _ => false,
    }
}

/// What the spawner of enemy tiles keeps between ticks: the size of the grid it fills,
/// and its timer once it has started.
#[derive(Clone, Copy, Debug)]
pub struct EnemyTileSpawner {
    pub grid_size: (u32, u32),
    pub timer: Option<Cooldown>,
}

impl EnemyTileSpawner {
    /// How long it takes until the spawner is due again, in milliseconds.
    pub const PERIOD: u32 = 60000;

    /// A spawner that has not run yet.
    pub fn new() -> (spawner: EnemyTileSpawner)
        ensures
            spawner.grid_size == (0u32, 0u32),
            spawner.timer is None,
            spawner.wf(),
    {
        EnemyTileSpawner { grid_size: (0, 0), timer: None }
    }

    /// The spawner is well formed when its timer, if it has started, is sound.
    pub open spec fn wf(self) -> bool {
        self.timer matches Some(timer) ==> timer.wf()
    }

    /// The timer that runs during a tick: the one that has started, or a fresh one.
    pub open spec fn running_timer(self) -> Cooldown {
        match self.timer {
            Some(timer) => timer,
            None => Cooldown::fresh(EnemyTileSpawner::PERIOD),
        }
    }

    /// The spawner after `delta` more milliseconds: a grid that had no size is three by
    /// three, and the timer has started and advanced.
    pub open spec fn after(self, delta: u32) -> EnemyTileSpawner {
        EnemyTileSpawner {
            grid_size: if self.grid_size == (0u32, 0u32) {
                (3u32, 3u32)
            } else {
                self.grid_size
            },
            timer: Some(self.running_timer().after(delta as nat)),
        }
    }
}

/// Runs the spawner of enemy tiles for `delta` milliseconds and tells whether it is due.
pub fn enemy_tile_spawner(spawner: &mut EnemyTileSpawner, delta: u32) -> (due: bool)
    requires
        old(spawner).wf(),
    ensures
        *final(spawner) == old(spawner).after(delta),
        final(spawner).wf(),
        due == old(spawner).running_timer().fires(delta as nat),
{
    if spawner.grid_size.0 == 0 && spawner.grid_size.1 == 0 {
        spawner.grid_size = (3, 3);
    }
    let mut timer = match spawner.timer {
        Some(timer) => timer,
        None => Cooldown::repeating(EnemyTileSpawner::PERIOD),
    };
    let due = timer.tick(delta);
    spawner.timer = Some(timer);
    due
}

/// A slot that holds a card takes no other card.
pub proof fn lemma_slot_exclusive(tile: Tile, card: Card)
    requires
        tile matches Tile::Woods { slotted_villager, .. } && slotted_villager is Some,
    ensures
        !tile.accepts(card),
{
}

/// Once a card was taken out of the slot of woods, the slot takes a villager again.
pub proof fn lemma_unslot_frees(tile: Tile, card: Card)
    requires
        tile is Woods,
        card.class_spec() == CardClass::Villager,
    ensures
        tile.emptied().accepts(card),
{
}

} // verus!
