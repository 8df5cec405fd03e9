use sand_game::elements::KIND_COUNT;
use sand_game::{next_rainbow_color, Behavior, Cell, GridCell, SandGame};

const SAND_COLORS: [(u8, u8, u8); 3] = [(207, 180, 120), (185, 160, 100), (160, 140, 80)];

#[test]
fn ids_round_trip() {
    for id in 0..KIND_COUNT {
        let kind = Cell::from_id(id).unwrap();
        assert_eq!(kind.id(), id);
    }
    assert_eq!(Cell::from_id(1), Some(Cell::Sand));
    assert_eq!(Cell::from_id(7), Some(Cell::Steam));
    assert_eq!(Cell::from_id(8), None);
    assert_eq!(Cell::from_id(255), None);
}

#[test]
fn element_types_list_every_kind_in_id_order() {
    let types = SandGame::get_element_types();
    let names: Vec<&str> = types.iter().map(|t| t.0).collect();
    assert_eq!(
        names,
        vec!["Empty", "Sand", "Water", "Stone", "Wood", "Dirt", "RainbowSand", "Steam"]
    );
    for (i, t) in types.iter().enumerate() {
        assert_eq!(t.1 as usize, i);
    }
}

#[test]
fn element_table_entries() {
    let sand = Cell::Sand.properties();
    assert_eq!(sand.colors, SAND_COLORS.to_vec());
    assert_eq!(sand.movement_behavior, Behavior::MovableSolid);
    assert_eq!(sand.density, 100);
    assert_eq!(Cell::Water.properties().movement_behavior, Behavior::Liquid);
    assert_eq!(Cell::Water.properties().colors, vec![(28, 85, 205)]);
    assert_eq!(Cell::Steam.properties().movement_behavior, Behavior::Gas);
    assert_eq!(Cell::Stone.properties().movement_behavior, Behavior::Inert);
    assert_eq!(Cell::Wood.behavior(), Behavior::Inert);
    assert_eq!(Cell::Empty.behavior(), Behavior::Inert);
    assert_eq!(Cell::Dirt.behavior(), Behavior::MovableSolid);
    assert_eq!(Cell::RainbowSand.properties().colors.len(), 7);
}

#[test]
fn rainbow_cycle_advances_and_wraps() {
    let mut counter: usize = 0;
    assert_eq!(next_rainbow_color(&mut counter), (255, 0, 0));
    assert_eq!(counter, 1);
    assert_eq!(next_rainbow_color(&mut counter), (255, 127, 0));
    let mut last: usize = 6;
    assert_eq!(next_rainbow_color(&mut last), (143, 0, 255));
    assert_eq!(last, 7);
    assert_eq!(next_rainbow_color(&mut last), (255, 0, 0));
    assert_eq!(last, 8);
    let mut top: usize = usize::MAX;
    next_rainbow_color(&mut top);
    assert_eq!(top, 0);
}

#[test]
fn fresh_rainbow_sand_takes_the_next_hue() {
    let mut counter: usize = 3;
    let c = GridCell::new(Cell::RainbowSand, &mut counter);
    assert_eq!(c.color, (0, 255, 0));
    assert_eq!(counter, 4);
    assert_eq!(c.cell_type, Cell::RainbowSand);
}

#[test]
fn fresh_cells_draw_from_their_palette() {
    let mut counter: usize = 2;
    for _ in 0..200 {
        let c = GridCell::new(Cell::Sand, &mut counter);
        assert!(SAND_COLORS.contains(&c.color));
        assert_eq!(c.velocity, 0);
        assert_eq!(c.last_processed_frame, 0);
    }
    assert_eq!(counter, 2);
    let w = GridCell::new(Cell::Water, &mut counter);
    assert_eq!(w.color, (28, 85, 205));
}

#[test]
fn palette_pick_is_exact() {
    let c = GridCell::from_palette(Cell::Sand, 2);
    assert_eq!(c.color, (160, 140, 80));
    assert_eq!(c.cell_type, Cell::Sand);
    let s = GridCell::from_palette(Cell::Stone, 1);
    assert_eq!(s.color, (120, 120, 120));
}
