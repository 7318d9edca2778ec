use langtons_ant::ant::{Ant, AntDirection};
use langtons_ant::cell_grid::{CellGrid, CellState};
use langtons_ant::sim::tick;

#[test]
fn first_tick_on_all_dead_grid_revives_cell_and_turns_right() {
    // 3x3 nominal, realized 2x2; ant on the first cell's center (10, 10)
    let mut gr = CellGrid::new(3, 3, CellState::Dead).unwrap();
    let mut ant = Ant::new((10, 10));
    tick(&mut gr, &mut ant);
    // the visit revived the cell, so the ant saw Alive come back
    assert_eq!(gr.grid[0][0].state, CellState::Alive);
    assert_eq!(gr.alive, 1);
    assert_eq!(gr.dead, 3);
    assert_eq!(ant.dir, AntDirection::Up);
    assert_eq!(ant.next, AntDirection::Right);
    assert_eq!(ant.pos, (25, 10));
}

#[test]
fn tick_off_grid_leaves_grid_alone_and_steps_by_dead_rule() {
    let mut gr = CellGrid::new(3, 3, CellState::Dead).unwrap();
    let mut ant = Ant::new((1_000_000, 1_000_000));
    tick(&mut gr, &mut ant);
    assert_eq!(gr.alive, 0);
    assert_eq!(gr.dead, 4);
    assert_eq!(ant.next, AntDirection::Left);
    assert_eq!(ant.pos, (999_985, 1_000_000));
}

#[test]
fn many_ticks_conserve_counter_sum() {
    let mut gr = CellGrid::new(11, 11, CellState::Dead).unwrap();
    let mut ant = Ant::new((70, 70));
    let sum = gr.alive + gr.dead;
    assert_eq!(sum, 100);
    for _ in 0..200 {
        tick(&mut gr, &mut ant);
        assert_eq!(gr.alive + gr.dead, sum);
        assert_eq!(gr.size, sum);
    }
}

#[test]
fn two_ticks_on_same_cell_toggle_it_back() {
    let mut gr = CellGrid::new(3, 3, CellState::Dead).unwrap();
    let mut ant = Ant::new((10, 10));
    tick(&mut gr, &mut ant);
    assert_eq!(gr.grid[0][0].state, CellState::Alive);
    // teleport the ant back onto the same cell, as a left click would
    ant.set_pos((10, 10));
    tick(&mut gr, &mut ant);
    assert_eq!(gr.grid[0][0].state, CellState::Dead);
    assert_eq!(gr.alive, 0);
    assert_eq!(gr.dead, 4);
}
