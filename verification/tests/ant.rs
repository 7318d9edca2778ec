use langtons_ant::ant::{Ant, AntDirection};
use langtons_ant::cell_grid::CellState;

#[test]
fn ant_new_defaults() {
    let ant = Ant::new((200, 200));
    assert_eq!(ant.pos, (200, 200));
    assert_eq!(ant.dir, AntDirection::Left);
    assert_eq!(ant.next, AntDirection::Up);
}

#[test]
fn set_pos_teleports_without_touching_directions() {
    let mut ant = Ant::new((0, 0));
    ant.set_pos((123, -456));
    assert_eq!(ant.pos, (123, -456));
    assert_eq!(ant.dir, AntDirection::Left);
    assert_eq!(ant.next, AntDirection::Up);
}

#[test]
fn first_step_off_dead_cell_turns_left_and_moves_left() {
    // an all-dead grid reports Dead; from next = Up the ant decides Left
    // and moves one tile stride that way, its committed direction lagging
    let mut ant = Ant::new((10, 10));
    ant.handle_move(CellState::Dead);
    assert_eq!(ant.dir, AntDirection::Up);
    assert_eq!(ant.next, AntDirection::Left);
    assert_eq!(ant.pos, (-5, 10));
}

#[test]
fn step_off_alive_cell_turns_right_and_moves_that_way() {
    let mut ant = Ant::new((0, 0));
    ant.handle_move(CellState::Alive);
    assert_eq!(ant.dir, AntDirection::Up);
    assert_eq!(ant.next, AntDirection::Right);
    assert_eq!(ant.pos, (15, 0));
}

#[test]
fn rotation_off_alive_cells_cycles_every_four_steps() {
    let mut ant = Ant::new((0, 0));
    let expected: [AntDirection; 10] = [
        AntDirection::Right,
        AntDirection::Down,
        AntDirection::Left,
        AntDirection::Up,
        AntDirection::Right,
        AntDirection::Down,
        AntDirection::Left,
        AntDirection::Up,
        AntDirection::Right,
        AntDirection::Down,
    ];
    for want in expected.iter() {
        ant.handle_move(CellState::Alive);
        assert_eq!(ant.next, *want);
    }
    // ten clockwise steps net to two quarter turns of displacement history;
    // the direction state itself visited Up exactly at steps 4 and 8
}

#[test]
fn rotation_off_dead_cells_cycles_every_four_steps_in_reverse() {
    let mut ant = Ant::new((0, 0));
    let expected: [AntDirection; 10] = [
        AntDirection::Left,
        AntDirection::Down,
        AntDirection::Right,
        AntDirection::Up,
        AntDirection::Left,
        AntDirection::Down,
        AntDirection::Right,
        AntDirection::Up,
        AntDirection::Left,
        AntDirection::Down,
    ];
    for want in expected.iter() {
        ant.handle_move(CellState::Dead);
        assert_eq!(ant.next, *want);
    }
}

#[test]
fn four_steps_of_one_color_return_to_start() {
    // the 4-cycle in each mode also closes the walk into a square
    let mut ant = Ant::new((70, 70));
    for _ in 0..4 {
        ant.handle_move(CellState::Alive);
    }
    assert_eq!(ant.pos, (70, 70));
    assert_eq!(ant.next, AntDirection::Up);

    let mut ant = Ant::new((70, 70));
    for _ in 0..4 {
        ant.handle_move(CellState::Dead);
    }
    assert_eq!(ant.pos, (70, 70));
    assert_eq!(ant.next, AntDirection::Up);
}
