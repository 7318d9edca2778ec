//! The ant: a moving point and its direction-rotation state machine.

use vstd::prelude::*;

verus! {

use crate::cell_grid::{CellState, CELL_SIZE};

/// The four compass directions the ant can face.
#[derive(Clone, Copy, PartialEq, Eq, Structural, Debug)]
pub enum AntDirection {
    Up,
    Right,
    Down,
    Left,
}

/// Quarter turn clockwise: the rotation taken after visiting a cell that
/// was alive (and was just killed).
pub open spec fn turn_clockwise(d: AntDirection) -> AntDirection {
    match d {
        AntDirection::Up => AntDirection::Right,
        AntDirection::Right => AntDirection::Down,
        AntDirection::Down => AntDirection::Left,
        AntDirection::Left => AntDirection::Up,
    }
}

/// Quarter turn counter-clockwise: the rotation taken after visiting a
/// cell that was dead.
pub open spec fn turn_counter_clockwise(d: AntDirection) -> AntDirection {
    match d {
        AntDirection::Up => AntDirection::Left,
        AntDirection::Left => AntDirection::Down,
        AntDirection::Down => AntDirection::Right,
        AntDirection::Right => AntDirection::Up,
    }
}

/// The classical two-color turning rule: rotate clockwise off a cell that
/// was alive, counter-clockwise off a cell that was dead.
pub open spec fn turned(d: AntDirection, state: CellState) -> AntDirection {
    match state {
        CellState::Alive => turn_clockwise(d),
        CellState::Dead => turn_counter_clockwise(d),
    }
}

/// Where one tile stride of movement in direction `d` carries `pos`.
pub open spec fn stepped(pos: (i64, i64), d: AntDirection) -> (int, int) {
    match d {
        AntDirection::Up => (pos.0 as int, pos.1 - CELL_SIZE),
        AntDirection::Right => (pos.0 + CELL_SIZE, pos.1 as int),
        AntDirection::Down => (pos.0 as int, pos.1 + CELL_SIZE),
        AntDirection::Left => (pos.0 - CELL_SIZE, pos.1 as int),
    }
}

/// Moving one stride from `pos` in direction `d` stays within `i64`.
pub open spec fn step_in_bounds(pos: (i64, i64), d: AntDirection) -> bool {
    match d {
        AntDirection::Up => pos.1 - CELL_SIZE >= i64::MIN,
        AntDirection::Right => pos.0 + CELL_SIZE <= i64::MAX,
        AntDirection::Down => pos.1 + CELL_SIZE <= i64::MAX,
        AntDirection::Left => pos.0 - CELL_SIZE >= i64::MIN,
    }
}

/// The mobile agent. `dir` is the direction just committed, `next` the
/// direction decided for the coming tick: the rotation decision runs one
/// tick ahead of the move it produces.
pub struct Ant {
    pub dir: AntDirection,
    pub next: AntDirection,
    pub pos: (i64, i64),
}

impl Ant {
    pub fn new(pos: (i64, i64)) -> (ant: Ant)
        ensures
            ant.pos == pos,
            ant.dir == AntDirection::Left,
            ant.next == AntDirection::Up,
    {
        Ant { pos, dir: AntDirection::Left, next: AntDirection::Up }
    }

    /// Direct external override of the position (mouse teleport); the
    /// direction state is untouched.
    pub fn set_pos(&mut self, pos: (i64, i64))
        ensures
            final(self).pos == pos,
            final(self).dir == old(self).dir,
            final(self).next == old(self).next,
    {
        self.pos = pos;
    }

    /// One tick of the state machine: commit the pending direction,
    /// rotate it by the state of the cell just visited, and move one tile
    /// stride in the direction just decided (not the one committed: the
    /// motion runs one tick ahead of `dir`, deliberately).
    pub fn handle_move(&mut self, cell_state: CellState)
        requires
            step_in_bounds(old(self).pos, turned(old(self).next, cell_state)),
        ensures
            final(self).dir == old(self).next,
            final(self).next == turned(old(self).next, cell_state),
            (final(self).pos.0 as int, final(self).pos.1 as int)
                == stepped(old(self).pos, final(self).next),
    {
        let curr_pos = self.pos;
        self.dir = self.next;

        match cell_state {
            CellState::Alive => {
                self.next = match self.dir {
                    AntDirection::Up => AntDirection::Right,
                    AntDirection::Right => AntDirection::Down,
                    AntDirection::Down => AntDirection::Left,
                    AntDirection::Left => AntDirection::Up,
                };
            }
            CellState::Dead => {
                self.next = match self.dir {
                    AntDirection::Up => AntDirection::Left,
                    AntDirection::Right => AntDirection::Up,
                    AntDirection::Down => AntDirection::Right,
                    AntDirection::Left => AntDirection::Down,
                };
            }
        }

        match self.next {
            AntDirection::Up => self.set_pos((curr_pos.0, curr_pos.1 - CELL_SIZE)),
            AntDirection::Right => self.set_pos((curr_pos.0 + CELL_SIZE, curr_pos.1)),
            AntDirection::Down => self.set_pos((curr_pos.0, curr_pos.1 + CELL_SIZE)),
            AntDirection::Left => self.set_pos((curr_pos.0 - CELL_SIZE, curr_pos.1)),
        }
    }
}

/// Law: turning off alive cells is a strict 4-cycle. Four such turns
/// return any direction to itself, and no shorter repetition does.
pub proof fn lemma_turned_alive_four_cycle(d: AntDirection)
    ensures
        turned(turned(turned(turned(d, CellState::Alive), CellState::Alive), CellState::Alive),
            CellState::Alive) == d,
        turned(d, CellState::Alive) != d,
        turned(turned(d, CellState::Alive), CellState::Alive) != d,
        turned(turned(turned(d, CellState::Alive), CellState::Alive), CellState::Alive) != d,
{
}

/// Law: turning off dead cells is a strict 4-cycle, running through the
/// directions in the order opposite to the alive cycle.
pub proof fn lemma_turned_dead_four_cycle(d: AntDirection)
    ensures
        turned(turned(turned(turned(d, CellState::Dead), CellState::Dead), CellState::Dead),
            CellState::Dead) == d,
        turned(d, CellState::Dead) != d,
        turned(turned(d, CellState::Dead), CellState::Dead) != d,
        turned(turned(turned(d, CellState::Dead), CellState::Dead), CellState::Dead) != d,
        turned(d, CellState::Dead) == turned(turned(turned(d, CellState::Alive),
            CellState::Alive), CellState::Alive),
{
}

} // verus!
