//! One simulation tick, tying the grid's visit rule to the ant's move.

use vstd::prelude::*;

verus! {

use crate::ant::{step_in_bounds, stepped, turned, Ant};
use crate::cell_grid::{visit_post, visit_result, CellGrid};

/// One frame of the running simulation, as the driving loop performs it:
/// visit the cell under the ant with revival allowed, then advance the
/// ant by the state that came back.
pub fn tick(grid: &mut CellGrid, ant: &mut Ant)
    requires
        old(grid).wf(),
        step_in_bounds(
            old(ant).pos,
            turned(old(ant).next, visit_result(old(grid).cells(), old(ant).pos, true)),
        ),
    ensures
        final(grid).wf(),
        final(grid).cells() == visit_post(old(grid).cells(), old(ant).pos, true),
        final(grid).size == old(grid).size,
        final(grid).alive + final(grid).dead == old(grid).alive + old(grid).dead,
        final(ant).dir == old(ant).next,
        final(ant).next == turned(
            old(ant).next,
            visit_result(old(grid).cells(), old(ant).pos, true),
        ),
        (final(ant).pos.0 as int, final(ant).pos.1 as int) == stepped(
            old(ant).pos,
            final(ant).next,
        ),
{
    let state = grid.change_state_at_pos(ant.pos, true);
    ant.handle_move(state);
}

} // verus!
