//! Tiles: the fixed cells of the table, the slot of a woods tile, and the grid that finds
//! the tile at a place.

use crate::card::{Card, CardClass};
use crate::geometry::{clamp_i32, clamp_to_i32, coordinate_gap, gap, Position};
use crate::timer::{ProgressBar, ProgressBars, without_bar};
use vstd::prelude::*;

verus! {

/// A cell of the table.
#[derive(Clone, Copy, Debug, PartialEq, Eq, Structural)]
pub enum Tile {
    /// Woods have a slot for one villager; while a villager is slotted, the woods yield
    /// logs.
    Woods { slotted_villager: Option<usize>, progress_bar: Option<usize> },
    /// Enemies come out of this tile for as long as its timer runs.
    Enemies { progress_bar: Option<usize> },
}

/// The place of a tile in the grid, in whole cells.
#[derive(Clone, Copy, Debug, PartialEq, Eq, Structural)]
pub struct TileGridLocation {
    pub x: i32,
    pub y: i32,
}

/// The tile under the pointer while the player holds a card.
#[derive(Clone, Copy, Debug, PartialEq, Eq, Structural)]
pub struct HoveredTile(pub Option<usize>);

/// A `bevy::utils::HashMap` from a place in the grid, held as a `bevy::math::IVec2`, to
/// the identity of the tile there.
#[verifier::external_body]
pub struct TileGrid {
    inner: bevy::utils::HashMap<bevy::math::IVec2, usize>,
}

/// The cells that a [`TileGrid`] holds, each place given as its two coordinates.
pub uninterp spec fn tile_grid_cells(g: TileGrid) -> Map<(i32, i32), usize>;

/// `HashMap::default` of `bevy::utils`: a grid without cells.
#[verifier::external_body]
fn tile_grid_new() -> (fresh: TileGrid)
    ensures
        forall|place: (i32, i32)| !tile_grid_cells(fresh).contains_key(place),
{
    TileGrid { inner: bevy::utils::HashMap::default() }
}

/// `HashMap::insert` under the key `IVec2::new(x, y)`: binds the place to `tile` and
/// leaves every other cell as it was.
#[verifier::external_body]
fn tile_grid_insert(g: &mut TileGrid, x: i32, y: i32, tile: usize)
    ensures
        tile_grid_cells(*final(g)) == tile_grid_cells(*old(g)).insert((x, y), tile),
{
    g.inner.insert(bevy::math::IVec2::new(x, y), tile);
}

/// `HashMap::get` under the key `IVec2::new(x, y)`: the tile at the place, if one is
/// bound to it.
#[verifier::external_body]
fn tile_grid_get(g: &TileGrid, x: i32, y: i32) -> (found: Option<usize>)
    ensures
        found == (if tile_grid_cells(*g).contains_key((x, y)) {
            Some(tile_grid_cells(*g)[(x, y)])
        } else {
            None
        }),
{
    g.inner.get(&bevy::math::IVec2::new(x, y)).copied()
}

impl View for TileGrid {
    type V = Map<(i32, i32), usize>;

    closed spec fn view(&self) -> Map<(i32, i32), usize> {
        tile_grid_cells(*self)
    }
}

impl TileGrid {
    /// A grid without cells.
    pub fn new() -> (grid: TileGrid)
        ensures
            grid@ == Map::<(i32, i32), usize>::empty(),
    {
        let grid = tile_grid_new();
        assert(grid@ =~= Map::<(i32, i32), usize>::empty());
        grid
    }

    /// Records that `tile` lies at `location`.
    pub fn insert(&mut self, location: TileGridLocation, tile: usize)
        ensures
            final(self)@ == old(self)@.insert((location.x, location.y), tile),
    {
        tile_grid_insert(self, location.x, location.y, tile);
    }

    /// The tile at `location`, if there is one.
    pub fn get(&self, location: TileGridLocation) -> (tile: Option<usize>)
        ensures
            tile == (if self@.contains_key((location.x, location.y)) {
                Some(self@[(location.x, location.y)])
            } else {
                None
            }),
    {
        tile_grid_get(self, location.x, location.y)
    }
}

impl Default for TileGrid {
    fn default() -> (grid: TileGrid)
        ensures
            grid@ == Map::<(i32, i32), usize>::empty(),
    {
        TileGrid::new()
    }
}

impl Default for Tile {
    fn default() -> (tile: Tile)
        ensures
            tile == (Tile::Woods { slotted_villager: None, progress_bar: None }),
    {
        Tile::Woods { slotted_villager: None, progress_bar: None }
    }
}

impl Default for TileGridLocation {
    fn default() -> (location: TileGridLocation)
        ensures
            location == (TileGridLocation { x: 0, y: 0 }),
    {
        TileGridLocation { x: 0, y: 0 }
    }
}

impl Default for HoveredTile {
    fn default() -> (hovered: HoveredTile)
        ensures
            hovered == HoveredTile(None),
    {
        HoveredTile(None)
    }
}

/// The coordinate of the cell that the coordinate `v` of a point falls into: `v` over the
/// pitch of the grid, rounded to the nearest whole number, halves away from zero.
pub open spec fn cell_of(v: int) -> int {
    if v >= 0 {
        (v + Tile::PITCH / 2) / (Tile::PITCH as int)
    } else {
        -((-v + Tile::PITCH / 2) / (Tile::PITCH as int))
    }
}

impl Tile {
    /// The distance between the centres of neighbouring tiles, in position steps: the
    /// width of a tile less the overlap of its border.
    pub const PITCH: i32 = 2950;

    /// The width of a slot, in position steps.
    pub const SLOT_WIDTH: i32 = 1000;

    /// The height of a slot, in position steps.
    pub const SLOT_HEIGHT: i32 = 1200;

    /// How far from the centre of a woods tile its logs are laid, in position steps.
    pub const SPAWN_OFFSET: i32 = 950;

    /// How long woods take to yield a log, in milliseconds.
    pub const WOODS_TIME: u32 = 15000;

    /// How long it takes until the next enemy comes, in milliseconds.
    pub const ENEMIES_TIME: u32 = 20000;

    /// The centre of the tile at `grid_location`, each coordinate held to the range of
    /// positions.
    pub open spec fn centre(grid_location: TileGridLocation) -> Position {
        Position {
            x: clamp_i32(grid_location.x * Tile::PITCH) as i32,
            y: clamp_i32(grid_location.y * Tile::PITCH) as i32,
            z: 0,
        }
    }

    /// The place in the grid of the tile that `translation` falls into.
    pub open spec fn cell(translation: Position) -> TileGridLocation {
        TileGridLocation {
            x: cell_of(translation.x as int) as i32,
            y: cell_of(translation.y as int) as i32,
        }
    }

    /// Whether this kind of tile has a slot.
    pub open spec fn slotted(self) -> bool {
        self is Woods
    }

    /// Whether the slot of this tile takes `card`: the tile is woods, its slot is empty,
    /// and the card is a villager.
    pub open spec fn accepts(self, card: Card) -> bool {
        self matches Tile::Woods { slotted_villager, .. } && slotted_villager is None
            && card.class_spec() == CardClass::Villager
    }

    /// The card in the slot of this tile.
    pub open spec fn held(self) -> Option<usize> {
        match self {
            Tile::Woods { slotted_villager, .. } => slotted_villager,
            Tile::Enemies { .. } => None,
        }
    }

    /// The timer of this tile.
    pub open spec fn timer(self) -> Option<usize> {
        match self {
            Tile::Woods { progress_bar, .. } => progress_bar,
            Tile::Enemies { progress_bar } => progress_bar,
        }
    }

    /// The centre of the tile at `grid_location`.
    pub fn grid_to_translation(grid_location: TileGridLocation) -> (translation: Position)
        ensures
            translation == Tile::centre(grid_location),
    {
        Position {
            x: clamp_to_i32(grid_location.x as i64 * Tile::PITCH as i64),
            y: clamp_to_i32(grid_location.y as i64 * Tile::PITCH as i64),
            z: 0,
        }
    }

    /// The place in the grid of the tile that `translation` falls into.
    pub fn translation_to_grid(translation: Position) -> (grid_location: TileGridLocation)
        ensures
            grid_location == Tile::cell(translation),
    {
        TileGridLocation { x: cell_coordinate(translation.x), y: cell_coordinate(translation.y) }
    }

    /// The width and the height of a slot, in position steps.
    pub fn slot_size() -> (size: (i32, i32))
        ensures
            size == (Tile::SLOT_WIDTH, Tile::SLOT_HEIGHT),
    {
        (Tile::SLOT_WIDTH, Tile::SLOT_HEIGHT)
    }

    /// Whether this kind of tile has a slot.
    pub fn has_slot(&self) -> (slotted: bool)
        ensures
            slotted == self.slotted(),
    {
        match self {
            Tile::Woods { .. } => true,
            Tile::Enemies { .. } => false,
        }
    }

    /// Tries to put the card `card_entity` into the slot of this tile. The slot takes the
    /// card if the tile is woods, its slot is empty and the card is a villager: then the
    /// tile holds the card and starts a fresh production timer. Otherwise nothing changes.
    pub fn try_slotting_card(
        &mut self,
        bars: &mut ProgressBars,
        card_entity: usize,
        card: &Card,
    ) -> (slotted: bool)
        ensures
            slotted == old(self).accepts(*card),
            slotted ==> *final(self) == (Tile::Woods {
                slotted_villager: Some(card_entity),
                progress_bar: Some(old(bars)@.len() as usize),
            }) && final(bars)@ == old(bars)@.push(
                Some(ProgressBar { current: 0, total: Tile::WOODS_TIME }),
            ),
            !slotted ==> *final(self) == *old(self) && final(bars)@ == old(bars)@,
    {
        match self {
            Tile::Woods { slotted_villager, progress_bar } => {
                if slotted_villager.is_none() && card.class() == CardClass::Villager {
                    let new_progress_bar = bars.spawn(Tile::WOODS_TIME);
                    *self = Tile::Woods {
                        slotted_villager: Some(card_entity),
                        progress_bar: Some(new_progress_bar),
                    };
                    true
                } else {
                    false
                }
            },
            _ => false,
        }
    }

    /// Takes the card out of the slot of this tile and ends the production timer: what
    /// the timer had gathered is lost. A tile without a slot is left as it is.
    pub fn unslot(&mut self, bars: &mut ProgressBars)
        ensures
            *final(self) == old(self).emptied(),
            final(bars)@ == old(self).without_timer(old(bars)@),
    {
        match self {
            Tile::Woods { slotted_villager, progress_bar } => {
                if let Some(bar) = *progress_bar {
                    bars.despawn(bar);
                }
                *self = Tile::Woods { slotted_villager: None, progress_bar: None };
            },
            _ => {},
        }
    }

    /// This tile with its slot empty and, for woods, without a timer.
    pub open spec fn emptied(self) -> Tile {
        match self {
            Tile::Woods { .. } => Tile::Woods { slotted_villager: None, progress_bar: None },
            _ => self,
        }
    }

    /// The bars after the production timer of these woods has ended.
    pub open spec fn without_timer(self, bars: Seq<Option<ProgressBar>>) -> Seq<
        Option<ProgressBar>,
    > {
        match self {
            Tile::Woods { progress_bar: Some(bar), .. } => without_bar(bars, bar),
            _ => bars,
        }
    }

    /// A point lies in the slot of the tile at `centre` when it is less than half the
    /// slot's width and half the slot's height away from the centre.
    pub open spec fn slot_covers(centre: Position, point: Position) -> bool {
        &&& 2 * gap(centre.x as int, point.x as int) < Tile::SLOT_WIDTH
        &&& 2 * gap(centre.y as int, point.y as int) < Tile::SLOT_HEIGHT
    }

    /// Whether `point` lies in the slot of the tile at `centre`.
    pub fn slot_contains(centre: &Position, point: &Position) -> (inside: bool)
        ensures
            inside == Tile::slot_covers(*centre, *point),
    {
        2 * coordinate_gap(centre.x, point.x) < Tile::SLOT_WIDTH as u64 && 2 * coordinate_gap(
            centre.y,
            point.y,
        ) < Tile::SLOT_HEIGHT as u64
    }
}

/// The coordinate of the cell that the coordinate `v` of a point falls into.
pub fn cell_coordinate(v: i32) -> (cell: i32)
    ensures
        cell == cell_of(v as int),
{
    if v >= 0 {
        ((v as i64 + (Tile::PITCH / 2) as i64) / Tile::PITCH as i64) as i32
    } else {
        let up: u64 = ((-(v as i64)) as u64 + (Tile::PITCH / 2) as u64) / Tile::PITCH as u64;
        (-(up as i64)) as i32
    }
}

/// Finding the cell of the centre of a tile gives the tile's place back, as long as the
/// centre lies within the range of positions.
pub proof fn lemma_grid_round_trip(location: TileGridLocation)
    requires
        i32::MIN <= location.x * Tile::PITCH <= i32::MAX,
        i32::MIN <= location.y * Tile::PITCH <= i32::MAX,
    ensures
        Tile::cell(Tile::centre(location)) == location,
{
    lemma_cell_of_multiple(location.x as int);
    lemma_cell_of_multiple(location.y as int);
}

/// The centre of the cell `k` falls into the cell `k`.
pub proof fn lemma_cell_of_multiple(k: int)
    ensures
        cell_of(k * 2950) == k,
{
    if k >= 0 {
        assert((k * 2950 + 1475) / 2950 == k) by (nonlinear_arith)
            requires
                k >= 0,
        ;
    } else {
        assert((-(k * 2950) + 1475) / 2950 == -k) by (nonlinear_arith)
            requires
                k < 0,
        ;
    }
}

} // verus!
