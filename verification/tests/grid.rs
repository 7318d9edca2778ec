use langtons_ant::cell_grid::{Cell, CellGrid, CellState, GridConfigError};

fn dead_grid(cols: i32, rows: i32) -> CellGrid {
    CellGrid::new(cols, rows, CellState::Dead).unwrap()
}

fn alive_grid(cols: i32, rows: i32) -> CellGrid {
    CellGrid::new(cols, rows, CellState::Alive).unwrap()
}

#[test]
fn new_dead_initial_counters() {
    let gr = dead_grid(4, 4);
    assert_eq!(gr.size, 9);
    assert_eq!(gr.dead, 9);
    assert_eq!(gr.alive, 0);
}

#[test]
fn new_alive_initial_counters() {
    let gr = alive_grid(4, 4);
    assert_eq!(gr.size, 9);
    assert_eq!(gr.alive, 9);
    assert_eq!(gr.dead, 0);
}

#[test]
fn new_rejects_nonpositive_dimensions() {
    assert!(matches!(
        CellGrid::new(0, 5, CellState::Dead),
        Err(GridConfigError::NonPositiveDimensions)
    ));
    assert!(matches!(
        CellGrid::new(5, 0, CellState::Alive),
        Err(GridConfigError::NonPositiveDimensions)
    ));
    assert!(matches!(
        CellGrid::new(-3, 2, CellState::Dead),
        Err(GridConfigError::NonPositiveDimensions)
    ));
}

#[test]
fn new_realizes_one_less_per_dimension_on_lattice() {
    let gr = dead_grid(3, 3);
    assert_eq!(gr.grid.len(), 2);
    for row in &gr.grid {
        assert_eq!(row.len(), 2);
        for cell in row {
            assert_eq!(cell.state, CellState::Dead);
        }
    }
    assert_eq!(gr.grid[0][0].pos, (10, 10));
    assert_eq!(gr.grid[0][1].pos, (10, 25));
    assert_eq!(gr.grid[1][0].pos, (25, 10));
    assert_eq!(gr.grid[1][1].pos, (25, 25));
}

#[test]
fn cell_new_fields() {
    let cell = Cell::new(CellState::Alive, (3, 4));
    assert_eq!(cell.state, CellState::Alive);
    assert_eq!(cell.pos, (3, 4));
}

#[test]
fn cell_at_hits_center_and_padded_edge() {
    let gr = dead_grid(3, 3);
    assert_eq!(gr.cell_at((10, 10)), Some((0, 0)));
    assert_eq!(gr.cell_at((25, 25)), Some((1, 1)));
    // the padded square is closed: 5 units off-center still hits
    assert_eq!(gr.cell_at((15, 10)), Some((0, 0)));
    assert_eq!(gr.cell_at((5, 14)), Some((0, 0)));
}

#[test]
fn cell_at_misses_between_and_outside_cells() {
    let gr = dead_grid(3, 3);
    // 6 units off every center on the x axis: covered by no cell
    assert_eq!(gr.cell_at((16, 10)), None);
    assert_eq!(gr.cell_at((10, 19)), None);
    assert_eq!(gr.cell_at((-100, -100)), None);
}

#[test]
fn visit_revives_dead_cell_when_allowed() {
    let mut gr = dead_grid(3, 3);
    let state = gr.change_state_at_pos((10, 10), true);
    assert_eq!(state, CellState::Alive);
    assert_eq!(gr.grid[0][0].state, CellState::Alive);
    assert_eq!(gr.alive, 1);
    assert_eq!(gr.dead, 3);
}

#[test]
fn visit_without_revive_leaves_dead_cell_dead() {
    let mut gr = dead_grid(3, 3);
    let state = gr.change_state_at_pos((10, 10), false);
    assert_eq!(state, CellState::Dead);
    assert_eq!(gr.grid[0][0].state, CellState::Dead);
    assert_eq!(gr.alive, 0);
    assert_eq!(gr.dead, 4);
}

#[test]
fn visit_always_kills_live_cell() {
    let mut gr = alive_grid(3, 3);
    let state = gr.change_state_at_pos((25, 10), false);
    assert_eq!(state, CellState::Dead);
    assert_eq!(gr.grid[1][0].state, CellState::Dead);
    assert_eq!(gr.alive, 3);
    assert_eq!(gr.dead, 1);

    let state = gr.change_state_at_pos((25, 25), true);
    assert_eq!(state, CellState::Dead);
    assert_eq!(gr.alive, 2);
    assert_eq!(gr.dead, 2);
}

#[test]
fn visit_twice_with_revive_restores_state() {
    // Dead -> Alive -> Dead
    let mut gr = dead_grid(3, 3);
    assert_eq!(gr.change_state_at_pos((10, 25), true), CellState::Alive);
    assert_eq!(gr.change_state_at_pos((10, 25), true), CellState::Dead);
    assert_eq!(gr.grid[0][1].state, CellState::Dead);
    assert_eq!(gr.alive, 0);
    assert_eq!(gr.dead, 4);

    // Alive -> Dead -> Alive
    let mut gr = alive_grid(3, 3);
    assert_eq!(gr.change_state_at_pos((10, 25), true), CellState::Dead);
    assert_eq!(gr.change_state_at_pos((10, 25), true), CellState::Alive);
    assert_eq!(gr.grid[0][1].state, CellState::Alive);
    assert_eq!(gr.alive, 4);
    assert_eq!(gr.dead, 0);
}

#[test]
fn visit_sequence_conserves_counter_sum() {
    let mut gr = dead_grid(6, 5);
    let initial_sum = gr.alive + gr.dead;
    assert_eq!(initial_sum, gr.size);
    let points: [(i64, i64); 8] = [
        (10, 10),
        (25, 25),
        (10, 10),
        (70, 55),
        (1_000_000, 1_000_000),
        (10, 10),
        (40, 40),
        (-50, 20),
    ];
    for (n, p) in points.iter().enumerate() {
        gr.change_state_at_pos(*p, n % 2 == 0);
        assert_eq!(gr.alive + gr.dead, initial_sum);
        assert_eq!(gr.size, initial_sum);
    }
}

#[test]
fn off_grid_visit_returns_dead_and_changes_nothing() {
    let mut gr = alive_grid(4, 4);
    let state = gr.change_state_at_pos((1_000_000, 1_000_000), true);
    assert_eq!(state, CellState::Dead);
    assert_eq!(gr.alive, 9);
    assert_eq!(gr.dead, 0);
    for row in &gr.grid {
        for cell in row {
            assert_eq!(cell.state, CellState::Alive);
        }
    }
}

#[test]
fn set_cell_state_overwrites_and_adjusts_by_delta() {
    let mut gr = dead_grid(3, 3);
    gr.set_cell_state((25, 10), CellState::Alive);
    assert_eq!(gr.grid[1][0].state, CellState::Alive);
    assert_eq!(gr.alive, 1);
    assert_eq!(gr.dead, 3);

    // writing the same state again moves no counter
    gr.set_cell_state((25, 10), CellState::Alive);
    assert_eq!(gr.alive, 1);
    assert_eq!(gr.dead, 3);

    gr.set_cell_state((25, 10), CellState::Dead);
    assert_eq!(gr.grid[1][0].state, CellState::Dead);
    assert_eq!(gr.alive, 0);
    assert_eq!(gr.dead, 4);
}

#[test]
fn set_cell_state_off_grid_changes_nothing() {
    let mut gr = dead_grid(3, 3);
    gr.set_cell_state((500, 500), CellState::Alive);
    assert_eq!(gr.alive, 0);
    assert_eq!(gr.dead, 4);
}
