use sand_game::{Cell, SandGame};

fn kind(g: &SandGame, x: usize, y: usize) -> Cell {
    g.cell_at(x, y).unwrap().cell_type
}

fn count(g: &SandGame, k: Cell) -> usize {
    let mut n = 0;
    for y in 0..g.get_height() {
        for x in 0..g.get_width() {
            if kind(g, x, y) == k {
                n += 1;
            }
        }
    }
    n
}

#[test]
fn sand_falls_one_row_after_spawn() {
    let mut g = SandGame::new(10, 10, 5);
    // Spawn rows count from the top: row 0 of the input is grid row 9.
    g.spawn_in_radius(5, 0, 0, Cell::Sand.id());
    assert_eq!(kind(&g, 5, 9), Cell::Sand);
    g.step();
    assert_eq!(kind(&g, 5, 8), Cell::Sand);
    assert_eq!(kind(&g, 5, 9), Cell::Empty);
}

#[test]
fn sand_spawned_on_the_bottom_row_stays() {
    let mut g = SandGame::new(10, 10, 5);
    g.spawn_in_radius(5, 9, 0, Cell::Sand.id());
    assert_eq!(kind(&g, 5, 0), Cell::Sand);
    g.step();
    assert_eq!(kind(&g, 5, 0), Cell::Sand);
    assert!(g.get_active_chunk_indices().is_empty());
}

#[test]
fn spawn_out_of_range_changes_nothing() {
    let mut g = SandGame::new(10, 10, 5);
    let buffer = g.get_color_buffer();
    g.spawn_in_radius(1000, 1000, 0, Cell::Sand.id());
    assert_eq!(g.get_color_buffer(), buffer);
    assert!(g.get_active_chunk_indices().is_empty());
    assert_eq!(count(&g, Cell::Empty), 100);
}

#[test]
fn zero_chunk_size_is_rejected() {
    assert!(SandGame::try_new(10, 10, 0).is_none());
    assert!(SandGame::try_new(0, 0, 0).is_none());
    assert!(SandGame::try_new(10, 10, 5).is_some());
}

#[test]
fn oversized_grid_is_rejected() {
    assert!(SandGame::try_new(usize::MAX, 2, 1).is_none());
    assert!(SandGame::try_new(usize::MAX / 4 + 1, 1, 1).is_none());
}

#[test]
fn sizes_follow_the_dimensions() {
    let mut g = SandGame::new(10, 7, 3);
    assert_eq!(g.get_width(), 10);
    assert_eq!(g.get_height(), 7);
    assert_eq!(g.get_color_buffer().len(), 10 * 7 * 4);
    assert_eq!(g.chunk_count_x(), 4);
    assert_eq!(g.chunk_count_y(), 3);
    g.spawn_in_radius(5, 3, 20, Cell::Stone.id());
    assert_eq!(g.get_active_chunk_indices(), (0..12).collect::<Vec<u32>>());
    assert!(g.is_chunk_active(3, 2));
    assert!(!g.is_chunk_active(4, 0));
    assert!(!g.is_chunk_active(0, 3));
    assert_eq!(count(&g, Cell::Stone), 70);
}

#[test]
fn fresh_grid_is_empty_and_black() {
    let g = SandGame::new(4, 3, 2);
    let buffer = g.get_color_buffer();
    assert_eq!(buffer.len(), 48);
    for p in buffer.chunks(4) {
        assert_eq!(p, &[0, 0, 0, 255]);
    }
    assert!(g.get_active_chunk_indices().is_empty());
    assert!(g.cell_at(4, 0).is_none());
    assert_eq!(g.index(3, 2), Some(11));
    assert_eq!(g.index(0, 3), None);
}

#[test]
fn color_buffer_shows_each_cell() {
    let mut g = SandGame::new(3, 2, 2);
    g.spawn_in_radius(1, 0, 0, Cell::Water.id());
    let buffer = g.get_color_buffer();
    // Input row 0 is grid row 1; cell (1, 1) is pixel 4.
    assert_eq!(&buffer[16..20], &[28, 85, 205, 255]);
    assert_eq!(&buffer[0..4], &[0, 0, 0, 255]);
}

#[test]
fn spawn_fills_a_disk() {
    let mut g = SandGame::new(9, 9, 3);
    g.spawn_in_radius(4, 4, 1, Cell::Wood.id());
    assert_eq!(count(&g, Cell::Wood), 5);
    assert_eq!(kind(&g, 4, 4), Cell::Wood);
    assert_eq!(kind(&g, 3, 4), Cell::Wood);
    assert_eq!(kind(&g, 4, 5), Cell::Wood);
    assert_eq!(kind(&g, 3, 3), Cell::Empty);
    assert_eq!(g.get_active_chunk_indices(), vec![4]);
    let mut h = SandGame::new(9, 9, 3);
    h.spawn_in_radius(4, 4, 2, Cell::Wood.id());
    assert_eq!(count(&h, Cell::Wood), 13);
}

#[test]
fn spawn_near_an_edge_is_clipped() {
    let mut g = SandGame::new(5, 5, 5);
    g.spawn_in_radius(0, 0, 1, Cell::Stone.id());
    // Grid row 4 is input row 0; (0, 4), (1, 4) and (0, 3) are in reach.
    assert_eq!(count(&g, Cell::Stone), 3);
    assert_eq!(kind(&g, 0, 4), Cell::Stone);
    assert_eq!(kind(&g, 1, 4), Cell::Stone);
    assert_eq!(kind(&g, 0, 3), Cell::Stone);
    let mut h = SandGame::new(5, 5, 5);
    // Input row 5 lies just below the grid; the disk still reaches row 0.
    h.spawn_in_radius(2, 5, 1, Cell::Stone.id());
    assert_eq!(count(&h, Cell::Stone), 1);
    assert_eq!(kind(&h, 2, 0), Cell::Stone);
}

#[test]
fn unknown_id_clears() {
    let mut g = SandGame::new(5, 5, 5);
    g.spawn_in_radius(2, 2, 1, Cell::Sand.id());
    assert_eq!(count(&g, Cell::Sand), 5);
    g.spawn_in_radius(2, 2, 1, 99);
    assert_eq!(count(&g, Cell::Empty), 25);
}

#[test]
fn rainbow_spawns_cycle_within_one_game() {
    let mut g = SandGame::new(3, 1, 3);
    g.spawn_in_radius(1, 0, 1, Cell::RainbowSand.id());
    assert_eq!(g.cell_at(0, 0).unwrap().color, (255, 0, 0));
    assert_eq!(g.cell_at(1, 0).unwrap().color, (255, 127, 0));
    assert_eq!(g.cell_at(2, 0).unwrap().color, (255, 255, 0));
}

#[test]
fn steps_keep_the_count_of_each_kind() {
    let mut g = SandGame::new(12, 12, 4);
    g.spawn_in_radius(3, 2, 2, Cell::Sand.id());
    g.spawn_in_radius(8, 3, 2, Cell::Water.id());
    g.spawn_in_radius(6, 10, 1, Cell::Steam.id());
    g.spawn_in_radius(6, 6, 1, Cell::Stone.id());
    let kinds = [Cell::Empty, Cell::Sand, Cell::Water, Cell::Stone, Cell::Steam];
    let before: Vec<usize> = kinds.iter().map(|k| count(&g, *k)).collect();
    for _ in 0..60 {
        g.step();
        let now: Vec<usize> = kinds.iter().map(|k| count(&g, *k)).collect();
        assert_eq!(now, before);
    }
    assert_eq!(g.get_frame(), 60);
}

#[test]
fn solid_falls_down_its_column_then_rests() {
    let mut g = SandGame::new(3, 12, 4);
    g.spawn_in_radius(1, 0, 0, Cell::Dirt.id());
    let mut row = 11;
    for _ in 0..30 {
        g.step();
        let mut found = None;
        for y in 0..12 {
            if kind(&g, 1, y) == Cell::Dirt {
                found = Some(y);
            }
        }
        let y = found.unwrap();
        assert!(y <= row);
        row = y;
    }
    assert_eq!(row, 0);
    g.step();
    assert!(g.get_active_chunk_indices().is_empty());
    assert_eq!(kind(&g, 1, 0), Cell::Dirt);
}

#[test]
fn solid_stops_on_an_occupied_cell() {
    let mut g = SandGame::new(1, 8, 8);
    g.spawn_in_radius(0, 5, 0, Cell::Stone.id());
    g.spawn_in_radius(0, 0, 0, Cell::Sand.id());
    for _ in 0..20 {
        g.step();
    }
    assert_eq!(kind(&g, 0, 2), Cell::Stone);
    assert_eq!(kind(&g, 0, 3), Cell::Sand);
    g.step();
    assert!(g.get_active_chunk_indices().is_empty());
}

#[test]
fn velocity_grows_by_the_gravity_step() {
    let mut g = SandGame::new(1, 60, 8);
    g.spawn_in_radius(0, 0, 0, Cell::Sand.id());
    // Rows crossed per tick are velocity / 10 + 1; velocity gains 2 a tick.
    let expected = [(58, 2), (57, 4), (56, 6), (55, 8), (54, 10), (52, 12), (50, 14)];
    for (row, velocity) in expected {
        g.step();
        let c = g.cell_at(0, row).unwrap();
        assert_eq!(c.cell_type, Cell::Sand);
        assert_eq!(c.velocity, velocity);
    }
}

#[test]
fn velocity_is_capped() {
    let mut g = SandGame::new(1, 2000, 64);
    g.spawn_in_radius(0, 0, 0, Cell::Sand.id());
    let mut last_row = 1999;
    for _ in 0..40 {
        g.step();
        let mut y = last_row;
        while kind(&g, 0, y) != Cell::Sand {
            y -= 1;
        }
        last_row = y;
    }
    let c = g.cell_at(0, last_row).unwrap();
    assert_eq!(c.velocity, sand_game::MAX_VELOCITY);
    g.step();
    assert_eq!(kind(&g, 0, last_row - 6), Cell::Sand);
}

#[test]
fn liquid_fills_a_basin_and_settles() {
    let mut g = SandGame::new(6, 5, 5);
    g.spawn_in_radius(1, 0, 0, Cell::Water.id());
    g.spawn_in_radius(2, 0, 0, Cell::Water.id());
    g.spawn_in_radius(2, 1, 0, Cell::Water.id());
    g.spawn_in_radius(3, 0, 0, Cell::Water.id());
    g.spawn_in_radius(3, 1, 0, Cell::Water.id());
    g.spawn_in_radius(3, 2, 0, Cell::Water.id());
    for _ in 0..300 {
        g.step();
        if g.get_active_chunk_indices().is_empty() {
            break;
        }
    }
    for x in 0..6 {
        assert_eq!(kind(&g, x, 0), Cell::Water);
    }
    assert!(g.get_active_chunk_indices().is_empty());
    g.step();
    assert!(g.get_active_chunk_indices().is_empty());
}

#[test]
fn liquid_hops_sideways_when_blocked_below() {
    let mut g = SandGame::new(3, 2, 2);
    g.spawn_in_radius(0, 1, 0, Cell::Stone.id());
    g.spawn_in_radius(1, 1, 0, Cell::Stone.id());
    g.spawn_in_radius(2, 1, 0, Cell::Stone.id());
    g.spawn_in_radius(1, 0, 0, Cell::Water.id());
    assert!(g.liquid_behavior(1, 1));
    assert_eq!(kind(&g, 1, 1), Cell::Empty);
    assert!(kind(&g, 0, 1) == Cell::Water || kind(&g, 2, 1) == Cell::Water);
}

#[test]
fn gas_rises_to_the_top() {
    let mut g = SandGame::new(5, 6, 3);
    g.spawn_in_radius(2, 5, 0, Cell::Steam.id());
    assert_eq!(kind(&g, 2, 0), Cell::Steam);
    for _ in 0..10 {
        g.step();
    }
    assert_eq!(count(&g, Cell::Steam), 1);
    let top: Vec<Cell> = (0..5).map(|x| kind(&g, x, 5)).collect();
    assert!(top.contains(&Cell::Steam));
}

#[test]
fn gas_under_a_lid_stays() {
    let mut g = SandGame::new(1, 3, 3);
    g.spawn_in_radius(0, 2, 0, Cell::Steam.id());
    g.spawn_in_radius(0, 1, 0, Cell::Stone.id());
    assert!(!g.gas_behavior(0, 0));
    assert_eq!(kind(&g, 0, 0), Cell::Steam);
    g.step();
    assert!(g.get_active_chunk_indices().is_empty());
}

#[test]
fn gas_spreads_when_blocked_above() {
    let mut g = SandGame::new(3, 2, 2);
    g.spawn_in_radius(1, 0, 0, Cell::Stone.id());
    g.spawn_in_radius(1, 1, 0, Cell::Steam.id());
    assert!(g.gas_behavior(1, 0));
    assert_eq!(kind(&g, 1, 0), Cell::Empty);
    assert_eq!(count(&g, Cell::Steam), 1);
}

#[test]
fn moves_activate_the_chunks_around() {
    let mut g = SandGame::new(10, 10, 5);
    g.spawn_in_radius(5, 0, 0, Cell::Sand.id());
    assert_eq!(g.get_active_chunk_indices(), vec![3]);
    g.step();
    assert_eq!(g.get_active_chunk_indices(), vec![0, 1, 2, 3]);
}

#[test]
fn behaviors_outside_the_grid_do_nothing() {
    let mut g = SandGame::new(4, 4, 2);
    assert!(!g.movable_solid_behavior(4, 0));
    assert!(!g.liquid_behavior(0, 9));
    assert!(!g.gas_behavior(7, 7));
}

fn colors(g: &SandGame) -> Vec<(Cell, (u8, u8, u8))> {
    let mut v = Vec::new();
    for y in 0..g.get_height() {
        for x in 0..g.get_width() {
            let c = g.cell_at(x, y).unwrap();
            v.push((c.cell_type, c.color));
        }
    }
    v.sort_by_key(|p| (p.0.id(), p.1));
    v
}

#[test]
fn steps_keep_each_cell_color() {
    let mut g = SandGame::new(10, 10, 5);
    g.spawn_in_radius(4, 2, 2, Cell::Sand.id());
    g.spawn_in_radius(6, 5, 1, Cell::RainbowSand.id());
    g.spawn_in_radius(2, 8, 1, Cell::Steam.id());
    let before = colors(&g);
    for _ in 0..30 {
        g.step();
        assert_eq!(colors(&g), before);
    }
}

#[test]
fn a_tick_with_no_active_chunk_changes_nothing() {
    let mut g = SandGame::new(6, 6, 3);
    g.spawn_in_radius(2, 5, 0, Cell::Sand.id());
    g.step();
    assert!(g.get_active_chunk_indices().is_empty());
    let buffer = g.get_color_buffer();
    let cell = g.cell_at(2, 0).unwrap();
    g.step();
    assert_eq!(g.get_color_buffer(), buffer);
    let after = g.cell_at(2, 0).unwrap();
    assert_eq!(after.velocity, cell.velocity);
    assert_eq!(after.last_processed_frame, cell.last_processed_frame);
    assert_eq!(g.get_frame(), 2);
}

#[test]
fn visited_cells_carry_the_frame_stamp() {
    let mut g = SandGame::new(4, 4, 4);
    g.spawn_in_radius(1, 0, 0, Cell::Water.id());
    g.spawn_in_radius(2, 3, 0, Cell::Stone.id());
    g.step();
    let water = (0..4)
        .flat_map(|y| (0..4).map(move |x| (x, y)))
        .map(|(x, y)| g.cell_at(x, y).unwrap())
        .find(|c| c.cell_type == Cell::Water)
        .unwrap();
    assert_eq!(water.last_processed_frame, 1);
    assert_eq!(g.cell_at(2, 0).unwrap().last_processed_frame, 1);
}
