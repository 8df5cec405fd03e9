use sand_game::{Cell, SandGame};

fn kind(g: &SandGame, x: usize, y: usize) -> Cell {
    g.cell_at(x, y).unwrap().cell_type
}

/// A 3 by 2 grid with stone at (1, 0) and sand at (1, 1).
fn perched_sand() -> SandGame {
    let mut g = SandGame::new(3, 2, 2);
    g.spawn_in_radius(1, 1, 0, Cell::Stone.id());
    g.spawn_in_radius(1, 0, 0, Cell::Sand.id());
    g
}

#[test]
fn direction_lists() {
    assert_eq!(SandGame::gen_diagonal_dirs(0, 3, true), vec![(1, 2)]);
    assert_eq!(SandGame::gen_diagonal_dirs(4, 3, true), vec![(3, 2), (5, 2)]);
    assert_eq!(SandGame::gen_diagonal_dirs(4, 3, false), vec![(5, 2), (3, 2)]);
    assert_eq!(SandGame::gen_horizontal_dirs(2, 1, false), vec![(3, 1), (1, 1)]);
    assert_eq!(SandGame::gen_gas_dirs(2, 1, true), vec![(1, 2), (3, 2), (1, 1), (3, 1)]);
    assert_eq!(SandGame::gen_gas_dirs(0, 1, false), vec![(1, 2), (1, 1)]);
}

#[test]
fn fall_once_takes_the_diagonal_the_coin_picks() {
    let mut g = perched_sand();
    assert_eq!(g.fall_once(1, 1, false, true, true), Some((0, 0)));
    assert_eq!(kind(&g, 0, 0), Cell::Sand);
    assert_eq!(kind(&g, 1, 1), Cell::Empty);
    let mut h = perched_sand();
    assert_eq!(h.fall_once(1, 1, false, false, true), Some((2, 0)));
    assert_eq!(kind(&h, 2, 0), Cell::Sand);
}

#[test]
fn fall_once_prefers_straight_down() {
    let mut g = SandGame::new(3, 2, 2);
    g.spawn_in_radius(1, 0, 0, Cell::Sand.id());
    assert_eq!(g.fall_once(1, 1, true, true, true), Some((1, 0)));
}

#[test]
fn fall_once_sideways_only_for_liquids() {
    let mut g = SandGame::new(3, 2, 2);
    g.spawn_in_radius(1, 1, 1, Cell::Stone.id());
    g.spawn_in_radius(1, 0, 0, Cell::Water.id());
    assert_eq!(g.fall_once(1, 1, false, true, true), None);
    assert_eq!(g.fall_once(1, 1, true, true, false), Some((2, 1)));
}

#[test]
fn fall_once_on_the_bottom_row_stays() {
    let mut g = SandGame::new(3, 2, 2);
    g.spawn_in_radius(1, 1, 0, Cell::Sand.id());
    assert_eq!(g.fall_once(1, 0, true, true, true), None);
}

#[test]
fn gas_move_goes_up_first_then_by_the_coin() {
    let mut g = SandGame::new(3, 2, 2);
    g.spawn_in_radius(1, 1, 0, Cell::Steam.id());
    assert_eq!(g.gas_move(1, 0, true), Some((1, 1)));
    let mut h = SandGame::new(3, 2, 2);
    h.spawn_in_radius(1, 0, 0, Cell::Stone.id());
    h.spawn_in_radius(1, 1, 0, Cell::Steam.id());
    assert_eq!(h.gas_move(1, 0, false), Some((2, 1)));
    assert_eq!(kind(&h, 2, 1), Cell::Steam);
}

#[test]
fn moves_only_into_empty_cells() {
    let mut g = perched_sand();
    let from = g.index(1, 1).unwrap();
    assert_eq!(g.try_move_in_directions(from, &vec![(1, 0), (7, 0)]), None);
    assert_eq!(kind(&g, 1, 1), Cell::Sand);
    assert_eq!(g.try_move_in_directions(from, &vec![(1, 0), (2, 1)]), Some((2, 1)));
    assert_eq!(kind(&g, 2, 1), Cell::Sand);
    assert_eq!(kind(&g, 1, 0), Cell::Stone);
}

#[test]
fn solid_behavior_resets_velocity_when_blocked() {
    let mut g = SandGame::new(1, 2, 2);
    g.spawn_in_radius(0, 1, 0, Cell::Stone.id());
    g.spawn_in_radius(0, 0, 0, Cell::Sand.id());
    assert!(!g.movable_solid_behavior(0, 1));
    assert_eq!(g.cell_at(0, 1).unwrap().velocity, 0);
}
