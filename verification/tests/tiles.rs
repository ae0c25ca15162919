use card_sim::board::{
    evaluate_tile, evaluate_tiles, hover_tile, on_spawn_tile, slot_visible, spawn_tiles,
    PlacedTile, Tiles,
};
use card_sim::card::{Card, CardType, HoverPoint, SelectedCard};
use card_sim::cards::Cards;
use card_sim::geometry::Position;
use card_sim::registry::StackRoots;
use card_sim::select::{select_card, Pointer};
use card_sim::tile::{cell_coordinate, HoveredTile, Tile, TileGrid, TileGridLocation};
use card_sim::timer::{ProgressBar, ProgressBars};

fn at(x: i32, y: i32, z: i32) -> Position {
    Position { x, y, z }
}

fn cell(x: i32, y: i32) -> TileGridLocation {
    TileGridLocation { x, y }
}

fn empty_woods() -> Tile {
    Tile::Woods { slotted_villager: None, progress_bar: None }
}

fn pointer(cursor: Option<HoverPoint>, pressed: Option<usize>, released: bool) -> Pointer {
    Pointer { cursor, pressed, released }
}

struct Table {
    cards: Cards,
    bars: ProgressBars,
    tiles: Tiles,
    tile_grid: TileGrid,
    stack_roots: StackRoots,
    selected_card: SelectedCard,
    hover_point: HoverPoint,
    hovered_tile: HoveredTile,
}

impl Table {
    fn setup() -> Table {
        let mut table = Table {
            cards: Cards::new(),
            bars: ProgressBars::new(),
            tiles: Tiles::new(),
            tile_grid: TileGrid::new(),
            stack_roots: StackRoots::new(),
            selected_card: SelectedCard::Nothing,
            hover_point: HoverPoint::Nothing,
            hovered_tile: HoveredTile(None),
        };
        spawn_tiles(&mut table.tiles);
        for tile in 0..table.tiles.len() {
            on_spawn_tile(tile, &mut table.bars, &mut table.tile_grid, &mut table.tiles);
        }
        table.cards.spawn(CardType::Villager, at(-500, 0, 0));
        table.cards.spawn(CardType::Villager, at(500, 0, 0));
        table
    }
}

fn point_table(table: &mut Table, p: &Pointer) {
    select_card(
        p,
        &mut table.bars,
        &table.hovered_tile,
        &mut table.selected_card,
        &mut table.stack_roots,
        &mut table.hover_point,
        &mut table.cards,
        &mut table.tiles,
    );
    hover_tile(&table.hover_point, &table.tile_grid, &mut table.hovered_tile, &table.selected_card);
}

#[test]
fn a_slotted_villager_makes_the_woods_yield_logs() {
    let mut table = Table::setup();
    let villager = 0;
    let over_middle = HoverPoint::Point(at(100, -200, 0));
    point_table(&mut table, &pointer(Some(over_middle), Some(villager), false));
    assert_eq!(table.selected_card, SelectedCard::Card(villager));
    let woods = table.tile_grid.get(cell(0, 0)).unwrap();
    assert_eq!(table.hovered_tile, HoveredTile(Some(woods)));
    point_table(&mut table, &pointer(Some(over_middle), None, true));
    assert_eq!(table.selected_card, SelectedCard::Nothing);
    assert_eq!(table.cards.get(villager).unwrap().slotted_in_tile, Some(woods));
    let bar = match table.tiles.get(woods).unwrap().tile {
        Tile::Woods { slotted_villager: Some(v), progress_bar: Some(bar) } if v == villager => bar,
        other => panic!("the woods should hold the villager, but are {:?}", other),
    };
    assert_eq!(table.bars.get(bar), Some(ProgressBar { current: 0, total: 15000 }));

    let before = table.cards.len();
    evaluate_tiles(14_999, &table.tiles, &mut table.bars, &mut table.cards);
    assert_eq!(table.cards.len(), before);
    assert_eq!(table.bars.get(bar).unwrap().current, 14_999);
    evaluate_tiles(1, &table.tiles, &mut table.bars, &mut table.cards);
    assert_eq!(table.cards.len(), before + 1);
    let log = table.cards.get(before).unwrap();
    assert_eq!(log.info.card_type, CardType::Log);
    assert_eq!(log.translation, at(950, 0, 0));
    assert_eq!(table.bars.get(bar), Some(ProgressBar { current: 0, total: 15000 }));
    // the timer runs again: fifteen seconds later comes the next log, and with it the
    // first goblin of the tile of the enemies, which is due after twenty
    evaluate_tiles(15_000, &table.tiles, &mut table.bars, &mut table.cards);
    assert_eq!(table.cards.len(), before + 3);
    assert_eq!(table.cards.get(before + 1).unwrap().info.card_type, CardType::Log);
    assert_eq!(table.cards.get(before + 2).unwrap().info.card_type, CardType::Goblin);
}

#[test]
fn a_full_slot_takes_no_second_card_until_it_is_emptied() {
    let mut bars = ProgressBars::new();
    let mut tile = empty_woods();
    let villager = Card::from(CardType::Villager);
    assert!(tile.try_slotting_card(&mut bars, 3, &villager));
    assert_eq!(tile, Tile::Woods { slotted_villager: Some(3), progress_bar: Some(0) });
    let held = (tile, bars.len());
    assert!(!tile.try_slotting_card(&mut bars, 4, &villager));
    assert!(!tile.try_slotting_card(&mut bars, 3, &villager));
    assert_eq!((tile, bars.len()), held);
    tile.unslot(&mut bars);
    assert_eq!(tile, empty_woods());
    assert_eq!(bars.get(0), None);
    assert!(tile.try_slotting_card(&mut bars, 4, &villager));
    assert_eq!(tile, Tile::Woods { slotted_villager: Some(4), progress_bar: Some(1) });
    assert_eq!(bars.get(1), Some(ProgressBar { current: 0, total: Tile::WOODS_TIME }));
}

#[test]
fn only_villagers_go_into_slots_and_only_woods_have_one() {
    let mut bars = ProgressBars::new();
    let mut tile = empty_woods();
    assert!(!tile.try_slotting_card(&mut bars, 1, &Card::from(CardType::Log)));
    assert!(!tile.try_slotting_card(&mut bars, 1, &Card::from(CardType::Goblin)));
    assert_eq!(tile, empty_woods());
    let mut enemies = Tile::Enemies { progress_bar: None };
    assert!(!enemies.try_slotting_card(&mut bars, 1, &Card::from(CardType::Villager)));
    assert_eq!(enemies, Tile::Enemies { progress_bar: None });
    assert_eq!(bars.len(), 0);
    assert!(tile.has_slot());
    assert!(!enemies.has_slot());
    let mut running = Tile::Enemies { progress_bar: Some(0) };
    bars.spawn(10);
    running.unslot(&mut bars);
    assert_eq!(running, Tile::Enemies { progress_bar: Some(0) });
    assert!(bars.get(0).is_some());
    assert_eq!(Tile::default(), empty_woods());
}

#[test]
fn picking_the_slotted_card_up_ends_the_production() {
    let mut table = Table::setup();
    let over_middle = HoverPoint::Point(at(0, 0, 0));
    point_table(&mut table, &pointer(Some(over_middle), Some(0), false));
    point_table(&mut table, &pointer(Some(over_middle), None, true));
    let woods = table.tile_grid.get(cell(0, 0)).unwrap();
    evaluate_tiles(10_000, &table.tiles, &mut table.bars, &mut table.cards);
    point_table(&mut table, &pointer(Some(over_middle), Some(0), false));
    assert_eq!(table.cards.get(0).unwrap().slotted_in_tile, None);
    assert_eq!(table.tiles.get(woods).unwrap().tile, empty_woods());
    assert_eq!(table.bars.get(1), None);
    let before = table.cards.len();
    evaluate_tiles(9_999, &table.tiles, &mut table.bars, &mut table.cards);
    assert_eq!(table.cards.len(), before);
    // slotted again, the production starts from the beginning
    point_table(&mut table, &pointer(Some(over_middle), None, true));
    assert_eq!(
        table.tiles.get(woods).unwrap().tile,
        Tile::Woods { slotted_villager: Some(0), progress_bar: Some(2) }
    );
    assert_eq!(table.bars.get(2), Some(ProgressBar { current: 0, total: 15000 }));
}

#[test]
fn a_card_let_go_beside_the_slot_stays_out() {
    let mut table = Table::setup();
    let woods = table.tile_grid.get(cell(0, 0)).unwrap();
    for beside in [at(500, 0, 0), at(-500, 0, 0), at(0, 600, 0), at(0, -600, 0)] {
        point_table(&mut table, &pointer(Some(HoverPoint::Point(beside)), Some(0), false));
        assert_eq!(table.hovered_tile, HoveredTile(Some(woods)));
        point_table(&mut table, &pointer(Some(HoverPoint::Point(beside)), None, true));
        assert_eq!(table.selected_card, SelectedCard::Nothing);
        assert_eq!(table.cards.get(0).unwrap().slotted_in_tile, None);
        assert_eq!(table.tiles.get(woods).unwrap().tile, empty_woods());
    }
    point_table(&mut table, &pointer(Some(HoverPoint::Point(at(499, 599, 0))), Some(0), false));
    point_table(&mut table, &pointer(Some(HoverPoint::Point(at(499, 599, 0))), None, true));
    assert_eq!(table.cards.get(0).unwrap().slotted_in_tile, Some(woods));
    assert!(Tile::slot_contains(&at(0, 0, 0), &at(-499, -599, 77)));
    assert!(!Tile::slot_contains(&at(0, 0, 0), &at(-500, 0, 0)));
    assert_eq!(Tile::slot_size(), (1000, 1200));
}

#[test]
fn a_slotted_card_is_not_stacked_and_a_stacked_card_is_not_slotted() {
    let mut table = Table::setup();
    let over_middle = HoverPoint::Point(at(0, 0, 0));
    point_table(&mut table, &pointer(Some(over_middle), Some(0), false));
    point_table(&mut table, &pointer(Some(over_middle), None, true));
    assert!(!table.cards.get(0).unwrap().is_stackable());
    assert!(!card_sim::stack::try_stacking(&mut table.stack_roots, &mut table.cards, 1, 0));
    assert!(!card_sim::stack::try_stacking(&mut table.stack_roots, &mut table.cards, 0, 1));
    // a card that carries another does not go into a slot
    let log = table.cards.spawn(CardType::Log, at(0, 0, 0));
    assert!(card_sim::stack::try_stacking(&mut table.stack_roots, &mut table.cards, log, 1));
    let over_left = HoverPoint::Point(at(-2950, 0, 0));
    point_table(&mut table, &pointer(Some(over_left), Some(1), false));
    point_table(&mut table, &pointer(Some(over_left), None, true));
    assert_eq!(table.cards.get(1).unwrap().slotted_in_tile, None);
}

#[test]
fn the_board_is_laid_out_in_three_columns() {
    let mut tiles = Tiles::new();
    spawn_tiles(&mut tiles);
    assert_eq!(tiles.len(), 10);
    assert_eq!(tiles.get(0), Some(PlacedTile { tile: empty_woods(), location: cell(-1, -1) }));
    assert_eq!(tiles.get(1), Some(PlacedTile { tile: empty_woods(), location: cell(-1, 0) }));
    assert_eq!(tiles.get(5), Some(PlacedTile { tile: empty_woods(), location: cell(0, 1) }));
    assert_eq!(tiles.get(8), Some(PlacedTile { tile: empty_woods(), location: cell(1, 1) }));
    assert_eq!(
        tiles.get(9),
        Some(PlacedTile { tile: Tile::Enemies { progress_bar: None }, location: cell(0, 2) })
    );
    assert_eq!(tiles.get(10), None);
}

#[test]
fn setting_a_tile_up_fills_the_grid_and_starts_the_enemies() {
    let mut tiles = Tiles::default();
    let mut grid = TileGrid::default();
    let mut bars = ProgressBars::new();
    spawn_tiles(&mut tiles);
    assert_eq!(grid.get(cell(0, 2)), None);
    on_spawn_tile(9, &mut bars, &mut grid, &mut tiles);
    on_spawn_tile(4, &mut bars, &mut grid, &mut tiles);
    on_spawn_tile(10, &mut bars, &mut grid, &mut tiles);
    assert_eq!(grid.get(cell(0, 2)), Some(9));
    assert_eq!(grid.get(cell(0, 0)), Some(4));
    assert_eq!(grid.get(cell(2, 0)), None);
    assert_eq!(grid.get(cell(1, 1)), None);
    assert_eq!(tiles.get(9).unwrap().tile, Tile::Enemies { progress_bar: Some(0) });
    assert_eq!(tiles.get(4).unwrap().tile, empty_woods());
    assert_eq!(bars.get(0), Some(ProgressBar { current: 0, total: 20000 }));
    assert_eq!(bars.len(), 1);
    grid.insert(cell(0, 0), 7);
    assert_eq!(grid.get(cell(0, 0)), Some(7));
    assert_eq!(grid.get(cell(0, 2)), Some(9));
}

#[test]
fn the_tile_of_the_enemies_sends_a_goblin_every_twenty_seconds() {
    let mut table = Table::setup();
    let before = table.cards.len();
    evaluate_tiles(19_999, &table.tiles, &mut table.bars, &mut table.cards);
    assert_eq!(table.cards.len(), before);
    evaluate_tiles(1, &table.tiles, &mut table.bars, &mut table.cards);
    assert_eq!(table.cards.len(), before + 1);
    let goblin = table.cards.get(before).unwrap();
    assert_eq!(goblin.info.card_type, CardType::Goblin);
    assert_eq!(goblin.translation, at(0, 5900, 0));
    assert_eq!(goblin.info.stats.health, 1);
    assert_eq!(table.bars.get(0), Some(ProgressBar { current: 0, total: 20000 }));
    evaluate_tiles(30_000, &table.tiles, &mut table.bars, &mut table.cards);
    assert_eq!(table.cards.len(), before + 2);
}

#[test]
fn a_tile_without_a_running_timer_yields_nothing() {
    let mut cards = Cards::new();
    let mut bars = ProgressBars::new();
    let idle = PlacedTile { tile: empty_woods(), location: cell(1, 1) };
    evaluate_tile(&idle, 100_000, &mut bars, &mut cards);
    let stale = PlacedTile {
        tile: Tile::Woods { slotted_villager: Some(0), progress_bar: Some(3) },
        location: cell(1, 1),
    };
    evaluate_tile(&stale, 100_000, &mut bars, &mut cards);
    assert_eq!(cards.len(), 0);
    assert_eq!(bars.len(), 0);
    let bar = bars.spawn(100);
    let busy = PlacedTile {
        tile: Tile::Woods { slotted_villager: None, progress_bar: Some(bar) },
        location: cell(-1, 1),
    };
    evaluate_tile(&busy, 100, &mut bars, &mut cards);
    assert_eq!(cards.get(0).unwrap().translation, at(-2000, 2950, 0));
}

#[test]
fn places_and_cells_correspond() {
    assert_eq!(Tile::grid_to_translation(cell(0, 0)), at(0, 0, 0));
    assert_eq!(Tile::grid_to_translation(cell(1, -2)), at(2950, -5900, 0));
    assert_eq!(Tile::grid_to_translation(cell(i32::MAX, i32::MIN)), at(i32::MAX, i32::MIN, 0));
    assert_eq!(Tile::translation_to_grid(at(0, 0, 0)), cell(0, 0));
    assert_eq!(Tile::translation_to_grid(at(1474, -1474, 5)), cell(0, 0));
    assert_eq!(Tile::translation_to_grid(at(1475, -1475, 5)), cell(1, -1));
    assert_eq!(Tile::translation_to_grid(at(4424, -4424, 5)), cell(1, -1));
    assert_eq!(Tile::translation_to_grid(at(4425, -4425, 5)), cell(2, -2));
    assert_eq!(cell_coordinate(i32::MAX), 727_961);
    assert_eq!(cell_coordinate(i32::MIN), -727_961);
    for x in -50..50 {
        for y in [-727_000, -3, 0, 1, 727_000] {
            assert_eq!(Tile::translation_to_grid(Tile::grid_to_translation(cell(x, y))), cell(x, y));
        }
    }
    assert_eq!(TileGridLocation::default(), cell(0, 0));
}

#[test]
fn the_tile_under_the_pointer_follows_a_held_card_only() {
    let table = Table::setup();
    let mut hovered = HoveredTile::default();
    let over = HoverPoint::Point(at(2950, 2950, 0));
    hover_tile(&over, &table.tile_grid, &mut hovered, &SelectedCard::Nothing);
    assert_eq!(hovered, HoveredTile(None));
    hover_tile(&over, &table.tile_grid, &mut hovered, &SelectedCard::Card(0));
    assert_eq!(hovered, HoveredTile(Some(8)));
    hover_tile(&HoverPoint::Nothing, &table.tile_grid, &mut hovered, &SelectedCard::Nothing);
    assert_eq!(hovered, HoveredTile(Some(8)));
    hover_tile(&HoverPoint::Point(at(0, 5900, 0)), &table.tile_grid, &mut hovered, &SelectedCard::Card(0));
    assert_eq!(hovered, HoveredTile(Some(9)));
    hover_tile(&HoverPoint::Point(at(9000, 0, 0)), &table.tile_grid, &mut hovered, &SelectedCard::Card(0));
    assert_eq!(hovered, HoveredTile(None));
    hovered = HoveredTile(Some(8));
    hover_tile(&HoverPoint::Nothing, &table.tile_grid, &mut hovered, &SelectedCard::Card(0));
    assert_eq!(hovered, HoveredTile(None));
}

#[test]
fn a_slot_shows_while_it_is_full_or_a_card_is_held_over_it() {
    let full = Tile::Woods { slotted_villager: Some(1), progress_bar: Some(0) };
    let nothing = SelectedCard::Nothing;
    let held = SelectedCard::Card(1);
    assert!(slot_visible(&full, 4, &HoveredTile(None), &nothing));
    assert!(!slot_visible(&empty_woods(), 4, &HoveredTile(None), &held));
    assert!(slot_visible(&empty_woods(), 4, &HoveredTile(Some(4)), &held));
    assert!(!slot_visible(&empty_woods(), 4, &HoveredTile(Some(5)), &held));
    assert!(!slot_visible(&empty_woods(), 4, &HoveredTile(Some(4)), &nothing));
    assert!(!slot_visible(&Tile::Enemies { progress_bar: None }, 9, &HoveredTile(Some(9)), &held));
}
