//! The grid: cell storage, point lookup and the visit rule.

use vstd::prelude::*;

verus! {

/// Spacing between adjacent cell centers, and the ant's step length.
pub const CELL_SIZE: i64 = 15;

/// Half-width of the square around a cell's center that a point lookup
/// accepts; deliberately a third of the stride, not half of it.
pub const CELL_PADDING: i64 = 5;

/// The two states a cell can be in.
#[derive(Clone, Copy, PartialEq, Eq, Structural, Debug)]
pub enum CellState {
    Alive,
    Dead,
}

/// One tile of the grid: a state and the fixed center of its tile, in
/// pixel coordinates.
#[derive(Clone, Copy, Debug)]
#[verifier::ext_equal]
pub struct Cell {
    pub state: CellState,
    pub pos: (i64, i64),
}

impl Cell {
    pub fn new(state: CellState, pos: (i64, i64)) -> (cell: Cell)
        ensures
            cell.state == state,
            cell.pos == pos,
    {
        Cell { state, pos }
    }
}

/// The views of a grid's rows: the cell array as a mathematical sequence
/// of sequences.
pub open spec fn views(g: Seq<Vec<Cell>>) -> Seq<Seq<Cell>> {
    g.map_values(|row: Vec<Cell>| row@)
}

/// Number of cells of `row` whose state is `s`.
pub open spec fn row_state_count(row: Seq<Cell>, s: CellState) -> nat
    decreases row.len(),
{
    if row.len() == 0 {
        0
    } else {
        row_state_count(row.drop_last(), s) + (if row.last().state == s {
            1nat
        } else {
            0nat
        })
    }
}

/// Number of cells of the whole grid whose state is `s`.
pub open spec fn grid_state_count(g: Seq<Seq<Cell>>, s: CellState) -> nat
    decreases g.len(),
{
    if g.len() == 0 {
        0
    } else {
        grid_state_count(g.drop_last(), s) + row_state_count(g.last(), s)
    }
}

/// Total number of cells in the grid.
pub open spec fn grid_cell_total(g: Seq<Seq<Cell>>) -> nat
    decreases g.len(),
{
    if g.len() == 0 {
        0
    } else {
        grid_cell_total(g.drop_last()) + g.last().len()
    }
}

proof fn lemma_row_state_count_push(row: Seq<Cell>, c: Cell, s: CellState)
    ensures
        row_state_count(row.push(c), s) == row_state_count(row, s) + (if c.state == s {
            1nat
        } else {
            0nat
        }),
{
    assert(row.push(c).drop_last() =~= row);
}

proof fn lemma_grid_state_count_push(g: Seq<Seq<Cell>>, row: Seq<Cell>, s: CellState)
    ensures
        grid_state_count(g.push(row), s) == grid_state_count(g, s) + row_state_count(row, s),
{
    assert(g.push(row).drop_last() =~= g);
}

proof fn lemma_grid_cell_total_push(g: Seq<Seq<Cell>>, row: Seq<Cell>)
    ensures
        grid_cell_total(g.push(row)) == grid_cell_total(g) + row.len(),
{
    assert(g.push(row).drop_last() =~= g);
}

proof fn lemma_row_state_count_update(row: Seq<Cell>, j: int, c: Cell, s: CellState)
    requires
        0 <= j < row.len(),
    ensures
        row_state_count(row.update(j, c), s) + (if row[j].state == s {
            1nat
        } else {
            0nat
        }) == row_state_count(row, s) + (if c.state == s {
            1nat
        } else {
            0nat
        }),
    decreases row.len(),
{
    if j == row.len() - 1 {
        assert(row.update(j, c).drop_last() =~= row.drop_last());
    } else {
        assert(row.update(j, c).drop_last() =~= row.drop_last().update(j, c));
        lemma_row_state_count_update(row.drop_last(), j, c, s);
    }
}

proof fn lemma_grid_state_count_update(g: Seq<Seq<Cell>>, i: int, row: Seq<Cell>, s: CellState)
    requires
        0 <= i < g.len(),
    ensures
        grid_state_count(g.update(i, row), s) + row_state_count(g[i], s) == grid_state_count(g, s)
            + row_state_count(row, s),
    decreases g.len(),
{
    if i == g.len() - 1 {
        assert(g.update(i, row).drop_last() =~= g.drop_last());
    } else {
        assert(g.update(i, row).drop_last() =~= g.drop_last().update(i, row));
        lemma_grid_state_count_update(g.drop_last(), i, row, s);
    }
}

proof fn lemma_row_state_count_member(row: Seq<Cell>, j: int, s: CellState)
    requires
        0 <= j < row.len(),
        row[j].state == s,
    ensures
        row_state_count(row, s) >= 1,
    decreases row.len(),
{
    if j < row.len() - 1 {
        lemma_row_state_count_member(row.drop_last(), j, s);
    }
}

proof fn lemma_grid_state_count_member(g: Seq<Seq<Cell>>, i: int, j: int, s: CellState)
    requires
        0 <= i < g.len(),
        0 <= j < g[i].len(),
        g[i][j].state == s,
    ensures
        grid_state_count(g, s) >= 1,
    decreases g.len(),
{
    if i == g.len() - 1 {
        lemma_row_state_count_member(g.last(), j, s);
    } else {
        lemma_grid_state_count_member(g.drop_last(), i, j, s);
    }
}

/// Does the lookup square of `cell` contain the point `p`? The square is
/// the closed range `CELL_PADDING` either side of the cell's center.
pub open spec fn covers(cell: Cell, p: (i64, i64)) -> bool {
    &&& cell.pos.0 - CELL_PADDING <= p.0 <= cell.pos.0 + CELL_PADDING
    &&& cell.pos.1 - CELL_PADDING <= p.1 <= cell.pos.1 + CELL_PADDING
}

/// Index of the last cell of `row` (in iteration order) covering `p`.
pub open spec fn row_last_cover(row: Seq<Cell>, p: (i64, i64)) -> Option<int>
    decreases row.len(),
{
    if row.len() == 0 {
        None
    } else if covers(row.last(), p) {
        Some(row.len() - 1)
    } else {
        row_last_cover(row.drop_last(), p)
    }
}

/// Index of the last cell of the grid covering `p`, in the iteration
/// order of the scan (outer rows first): the tie-break the scan makes
/// observable when lookup squares overlap.
pub open spec fn grid_last_cover(g: Seq<Seq<Cell>>, p: (i64, i64)) -> Option<(int, int)>
    decreases g.len(),
{
    if g.len() == 0 {
        None
    } else {
        match row_last_cover(g.last(), p) {
            Some(j) => Some((g.len() - 1, j)),
            None => grid_last_cover(g.drop_last(), p),
        }
    }
}

proof fn lemma_row_last_cover_props(row: Seq<Cell>, p: (i64, i64))
    ensures
        match row_last_cover(row, p) {
            Some(j) => 0 <= j < row.len() && covers(row[j], p) && (forall|k: int|
                j < k < row.len() ==> !(#[trigger] covers(row[k], p))),
            None => forall|k: int| 0 <= k < row.len() ==> !(#[trigger] covers(row[k], p)),
        },
    decreases row.len(),
{
    if row.len() > 0 && !covers(row.last(), p) {
        lemma_row_last_cover_props(row.drop_last(), p);
        let sub = row.drop_last();
        assert(forall|k: int| 0 <= k < sub.len() ==> #[trigger] row[k] == sub[k]);
        match row_last_cover(sub, p) {
            Some(j) => {
                assert forall|k: int| j < k < row.len() implies !(#[trigger] covers(
                    row[k],
                    p,
                )) by {
                    if k == row.len() - 1 {
                        assert(row[k] == row.last());
                    }
                }
            }
            None => {
                assert forall|k: int| 0 <= k < row.len() implies !(#[trigger] covers(
                    row[k],
                    p,
                )) by {
                    if k == row.len() - 1 {
                        assert(row[k] == row.last());
                    }
                }
            }
        }
    }
}

/// What the lookup's answer means: a `Some` names a valid index whose
/// cell covers the point, and no cell later in iteration order does; a
/// `None` says no cell covers the point at all.
pub proof fn lemma_grid_last_cover_props(g: Seq<Seq<Cell>>, p: (i64, i64))
    ensures
        match grid_last_cover(g, p) {
            Some(ij) => 0 <= ij.0 < g.len() && 0 <= ij.1 < g[ij.0].len() && covers(
                g[ij.0][ij.1],
                p,
            ) && (forall|a: int, b: int|
                0 <= a < g.len() && 0 <= b < g[a].len() && #[trigger] covers(g[a][b], p) ==> (a
                    < ij.0 || (a == ij.0 && b <= ij.1))),
            None => forall|a: int, b: int|
                0 <= a < g.len() && 0 <= b < g[a].len() ==> !(#[trigger] covers(g[a][b], p)),
        },
    decreases g.len(),
{
    if g.len() > 0 {
        lemma_row_last_cover_props(g.last(), p);
        let sub = g.drop_last();
        assert(forall|a: int| 0 <= a < sub.len() ==> #[trigger] g[a] == sub[a]);
        match row_last_cover(g.last(), p) {
            Some(j) => {
                assert(g[g.len() - 1] == g.last());
                assert forall|a: int, b: int|
                    0 <= a < g.len() && 0 <= b < g[a].len() && #[trigger] covers(g[a][b], p)
                        implies (a < g.len() - 1 || (a == g.len() - 1 && b <= j)) by {
                    if a == g.len() - 1 {
                        assert(covers(g.last()[b], p));
                    }
                }
            }
            None => {
                lemma_grid_last_cover_props(sub, p);
                match grid_last_cover(sub, p) {
                    Some(ij) => {
                        assert forall|a: int, b: int|
                            0 <= a < g.len() && 0 <= b < g[a].len() && #[trigger] covers(
                                g[a][b],
                                p,
                            ) implies (a < ij.0 || (a == ij.0 && b <= ij.1)) by {
                            if a == g.len() - 1 {
                                assert(covers(g.last()[b], p));
                            }
                        }
                    }
                    None => {
                        assert forall|a: int, b: int|
                            0 <= a < g.len() && 0 <= b < g[a].len() implies !(#[trigger] covers(
                            g[a][b],
                            p,
                        )) by {
                            if a == g.len() - 1 {
                                assert(g[a] == g.last());
                            }
                        }
                    }
                }
            }
        }
    }
}

proof fn lemma_row_last_cover_same_pos(r1: Seq<Cell>, r2: Seq<Cell>, p: (i64, i64))
    requires
        r1.len() == r2.len(),
        forall|k: int| 0 <= k < r1.len() ==> (#[trigger] r1[k]).pos == r2[k].pos,
    ensures
        row_last_cover(r1, p) == row_last_cover(r2, p),
    decreases r1.len(),
{
    if r1.len() > 0 {
        lemma_row_last_cover_same_pos(r1.drop_last(), r2.drop_last(), p);
    }
}

proof fn lemma_grid_last_cover_same_pos(g1: Seq<Seq<Cell>>, g2: Seq<Seq<Cell>>, p: (i64, i64))
    requires
        g1.len() == g2.len(),
        forall|i: int| 0 <= i < g1.len() ==> (#[trigger] g1[i]).len() == g2[i].len(),
        forall|i: int, j: int|
            0 <= i < g1.len() && 0 <= j < g1[i].len() ==> (#[trigger] g1[i][j]).pos == g2[i][j].pos,
    ensures
        grid_last_cover(g1, p) == grid_last_cover(g2, p),
    decreases g1.len(),
{
    if g1.len() > 0 {
        lemma_row_last_cover_same_pos(g1.last(), g2.last(), p);
        lemma_grid_last_cover_same_pos(g1.drop_last(), g2.drop_last(), p);
    }
}

/// The state a visited cell ends in, which is also the state the visit
/// reports: a live cell always dies; a dead cell revives only when
/// revival is allowed.
pub open spec fn visited_state(s: CellState, allow_revive: bool) -> CellState {
    match s {
        CellState::Alive => CellState::Dead,
        CellState::Dead => if allow_revive {
            CellState::Alive
        } else {
            CellState::Dead
        },
    }
}

/// What a visit at `p` returns: the new state of the covered cell, or
/// `Dead` as the sentinel for a point no cell covers.
pub open spec fn visit_result(g: Seq<Seq<Cell>>, p: (i64, i64), allow_revive: bool) -> CellState {
    match grid_last_cover(g, p) {
        None => CellState::Dead,
        Some(ij) => visited_state(g[ij.0][ij.1].state, allow_revive),
    }
}

/// The grid's cells after a visit at `p`: the covered cell takes its
/// visited state, every other cell and every position is untouched.
pub open spec fn visit_post(g: Seq<Seq<Cell>>, p: (i64, i64), allow_revive: bool) -> Seq<
    Seq<Cell>,
> {
    match grid_last_cover(g, p) {
        None => g,
        Some(ij) => g.update(
            ij.0,
            g[ij.0].update(
                ij.1,
                Cell {
                    state: visited_state(g[ij.0][ij.1].state, allow_revive),
                    pos: g[ij.0][ij.1].pos,
                },
            ),
        ),
    }
}

/// The grid's cells after a direct overwrite at `p`: the covered cell
/// takes `s` unconditionally, everything else is untouched.
pub open spec fn set_post(g: Seq<Seq<Cell>>, p: (i64, i64), s: CellState) -> Seq<Seq<Cell>> {
    match grid_last_cover(g, p) {
        None => g,
        Some(ij) => g.update(
            ij.0,
            g[ij.0].update(ij.1, Cell { state: s, pos: g[ij.0][ij.1].pos }),
        ),
    }
}

/// Every lattice position lies well inside the `i64` range, so the
/// lookup's padded comparisons cannot overflow.
pub open spec fn within_pos_bounds(pos: (i64, i64)) -> bool {
    &&& 10 <= pos.0 <= 0x8_0000_0000
    &&& 10 <= pos.1 <= 0x8_0000_0000
}

/// The grid: the cell array, built once, and the cached counters.
pub struct CellGrid {
    pub grid: Vec<Vec<Cell>>,
    pub size: u64,
    pub alive: u64,
    pub dead: u64,
}

/// The construction-time misconfiguration: a grid cannot be built from
/// zero or negative dimensions.
#[derive(Clone, Copy, PartialEq, Eq, Structural, Debug)]
pub enum GridConfigError {
    NonPositiveDimensions,
}

impl CellGrid {
    /// The cell array as a mathematical sequence of rows.
    pub open spec fn cells(&self) -> Seq<Seq<Cell>> {
        views(self.grid@)
    }

    /// Well-formedness: the array is rectangular, every cell's center
    /// sits on the tile lattice for its index, and the counters hold
    /// exactly the number of alive and dead cells, with `size` their sum.
    pub open spec fn wf(&self) -> bool {
        let g = self.cells();
        &&& g.len() < 0x8000_0000
        &&& forall|i: int| 0 <= i < g.len() ==> (#[trigger] g[i]).len() < 0x8000_0000
        &&& forall|i: int| 0 <= i < g.len() ==> (#[trigger] g[i]).len() == g[0].len()
        &&& forall|i: int, j: int|
            0 <= i < g.len() && 0 <= j < g[i].len() ==> (#[trigger] g[i][j]).pos.0 == (i + 1)
                * CELL_SIZE - CELL_PADDING && g[i][j].pos.1 == (j + 1) * CELL_SIZE - CELL_PADDING
        &&& forall|i: int, j: int|
            0 <= i < g.len() && 0 <= j < g[i].len() ==> within_pos_bounds(
                (#[trigger] g[i][j]).pos,
            )
        &&& self.alive == grid_state_count(g, CellState::Alive)
        &&& self.dead == grid_state_count(g, CellState::Dead)
        &&& self.size == self.alive + self.dead
    }

    /// Build the cell array with `initial_state` everywhere. The loops
    /// run from 1, so the realized grid is `(cols - 1) x (rows - 1)`
    /// cells, the nominal dimensions counting lattice lines rather than
    /// tiles; `size` is derived from the realized count, never computed
    /// separately, so `alive + dead == size` holds by construction.
    pub fn new(cols: i32, rows: i32, initial_state: CellState) -> (result: Result<
        CellGrid,
        GridConfigError,
    >)
        ensures
            match result {
                Ok(gr) => {
                    &&& cols >= 1 && rows >= 1
                    &&& gr.wf()
                    &&& gr.cells().len() == cols - 1
                    &&& forall|i: int|
                        0 <= i < gr.cells().len() ==> (#[trigger] gr.cells()[i]).len() == rows - 1
                    &&& forall|i: int, j: int|
                        0 <= i < gr.cells().len() && 0 <= j < rows - 1 ==> (
                        #[trigger] gr.cells()[i][j]).state == initial_state
                    &&& gr.size == (cols - 1) * (rows - 1)
                    &&& initial_state == CellState::Alive ==> gr.alive == gr.size && gr.dead == 0
                    &&& initial_state == CellState::Dead ==> gr.dead == gr.size && gr.alive == 0
                },
                Err(e) => (cols < 1 || rows < 1) && e == GridConfigError::NonPositiveDimensions,
            },
    {
        if cols < 1 || rows < 1 {
            return Err(GridConfigError::NonPositiveDimensions);
        }
        let mut grid: Vec<Vec<Cell>> = Vec::new();
        let mut count: u64 = 0;
        let mut i: i32 = 1;
        while i < cols
            invariant
                1 <= i <= cols,
                1 <= cols,
                1 <= rows,
                grid@.len() == i - 1,
                count == grid_cell_total(views(grid@)),
                grid_cell_total(views(grid@)) == grid@.len() * ((rows - 1) as int),
                grid_state_count(views(grid@), CellState::Alive) == (if initial_state
                    == CellState::Alive {
                    grid_cell_total(views(grid@))
                } else {
                    0nat
                }),
                grid_state_count(views(grid@), CellState::Dead) == (if initial_state
                    == CellState::Dead {
                    grid_cell_total(views(grid@))
                } else {
                    0nat
                }),
                forall|a: int|
                    0 <= a < grid@.len() ==> (#[trigger] views(grid@)[a]).len() == rows - 1,
                forall|a: int, b: int|
                    0 <= a < grid@.len() && 0 <= b < rows - 1 ==> {
                        let c = #[trigger] views(grid@)[a][b];
                        c.state == initial_state && c.pos.0 == (a + 1) * CELL_SIZE - CELL_PADDING
                            && c.pos.1 == (b + 1) * CELL_SIZE - CELL_PADDING && within_pos_bounds(
                            c.pos,
                        )
                    },
            decreases cols - i,
        {
            let mut row: Vec<Cell> = Vec::new();
            let mut j: i32 = 1;
            while j < rows
                invariant
                    1 <= i < cols,
                    1 <= j <= rows,
                    row@.len() == j - 1,
                    row_state_count(row@, CellState::Alive) == (if initial_state
                        == CellState::Alive {
                        row@.len()
                    } else {
                        0nat
                    }),
                    row_state_count(row@, CellState::Dead) == (if initial_state
                        == CellState::Dead {
                        row@.len()
                    } else {
                        0nat
                    }),
                    forall|b: int|
                        0 <= b < row@.len() ==> {
                            let c = #[trigger] row@[b];
                            c.state == initial_state && c.pos.0 == i * CELL_SIZE - CELL_PADDING
                                && c.pos.1 == (b + 1) * CELL_SIZE - CELL_PADDING
                                && within_pos_bounds(c.pos)
                        },
                decreases rows - j,
            {
                proof {
                    assert(0 < CELL_SIZE * (i as int) <= 0x8_0000_0000) by (nonlinear_arith)
                        requires
                            1 <= i <= 0x7fff_ffff,
                            CELL_SIZE == 15,
                    ;
                    assert(0 < CELL_SIZE * (j as int) <= 0x8_0000_0000) by (nonlinear_arith)
                        requires
                            1 <= j <= 0x7fff_ffff,
                            CELL_SIZE == 15,
                    ;
                }
                let x: i64 = CELL_SIZE * (i as i64) - CELL_PADDING;
                let y: i64 = CELL_SIZE * (j as i64) - CELL_PADDING;
                let cell = Cell::new(initial_state, (x, y));
                proof {
                    lemma_row_state_count_push(row@, cell, CellState::Alive);
                    lemma_row_state_count_push(row@, cell, CellState::Dead);
                }
                row.push(cell);
                j = j + 1;
            }
            proof {
                assert(count + ((rows - 1) as int) < 0x8000_0000_0000_0000) by (nonlinear_arith)
                    requires
                        count == ((i - 1) as int) * ((rows - 1) as int),
                        1 <= i < cols <= 0x7fff_ffff,
                        1 <= rows <= 0x7fff_ffff,
                ;
            }
            let ghost gv_before = views(grid@);
            let ghost row_view = row@;
            grid.push(row);
            count = count + (rows - 1) as u64;
            proof {
                assert(views(grid@) =~= gv_before.push(row_view));
                lemma_grid_state_count_push(gv_before, row_view, CellState::Alive);
                lemma_grid_state_count_push(gv_before, row_view, CellState::Dead);
                lemma_grid_cell_total_push(gv_before, row_view);
                assert((grid@.len() as int) * ((rows - 1) as int) == (gv_before.len() as int) * ((
                rows - 1) as int) + ((rows - 1) as int)) by (nonlinear_arith)
                    requires
                        grid@.len() == gv_before.len() + 1,
                ;
                assert forall|a: int, b: int| 0 <= a < grid@.len() && 0 <= b < rows - 1 implies {
                    let c = #[trigger] views(grid@)[a][b];
                    c.state == initial_state && c.pos.0 == (a + 1) * CELL_SIZE - CELL_PADDING
                        && c.pos.1 == (b + 1) * CELL_SIZE - CELL_PADDING && within_pos_bounds(c.pos)
                } by {
                    if a < gv_before.len() {
                        assert(views(grid@)[a] == gv_before[a]);
                    } else {
                        assert(views(grid@)[a] == row_view);
                    }
                }
            }
            i = i + 1;
        }
        let size: u64 = count;
        let (alive, dead): (u64, u64) = match initial_state {
            CellState::Alive => (size, 0),
            CellState::Dead => (0, size),
        };
        let gr = CellGrid { grid, size, alive, dead };
        Ok(gr)
    }

    /// Which cell covers `p`: a linear scan over all cells; when padded
    /// squares of several cells contain the point, the last matching
    /// cell in iteration order wins.
    pub fn cell_at(&self, pos: (i64, i64)) -> (found: Option<(usize, usize)>)
        requires
            self.wf(),
        ensures
            match found {
                Some(ij) => grid_last_cover(self.cells(), pos) == Some((ij.0 as int, ij.1 as int)),
                None => grid_last_cover(self.cells(), pos) is None,
            },
    {
        let ghost g = self.cells();
        let mut found: Option<(usize, usize)> = None;
        let mut i: usize = 0;
        while i < self.grid.len()
            invariant
                self.wf(),
                g == self.cells(),
                i <= self.grid.len(),
                match found {
                    None => forall|a: int, b: int|
                        0 <= a < i && 0 <= b < g[a].len() ==> !(#[trigger] covers(g[a][b], pos)),
                    Some(f) => f.0 < i && (f.1 as int) < g[f.0 as int].len() && covers(
                        g[f.0 as int][f.1 as int],
                        pos,
                    ) && (forall|a: int, b: int|
                        0 <= a < i && 0 <= b < g[a].len() && #[trigger] covers(g[a][b], pos) ==> (a
                            < f.0 || (a == f.0 && b <= f.1))),
                },
            decreases self.grid.len() - i,
        {
            let row_len: usize = self.grid[i].len();
            proof {
                assert(g[i as int] == self.grid@[i as int]@);
            }
            let mut j: usize = 0;
            while j < row_len
                invariant
                    self.wf(),
                    g == self.cells(),
                    i < self.grid.len(),
                    row_len == g[i as int].len(),
                    j <= row_len,
                    match found {
                        None => forall|a: int, b: int|
                            ((0 <= a < i && 0 <= b < g[a].len()) || (a == i && 0 <= b < j))
                                ==> !(#[trigger] covers(g[a][b], pos)),
                        Some(f) => (f.0 < i || (f.0 == i && f.1 < j)) && (f.1 as int)
                            < g[f.0 as int].len() && covers(g[f.0 as int][f.1 as int], pos) && (
                        forall|a: int, b: int|
                            ((0 <= a < i && 0 <= b < g[a].len()) || (a == i && 0 <= b < j))
                                && #[trigger] covers(g[a][b], pos) ==> (a < f.0 || (a == f.0 && b
                                <= f.1))),
                    },
                decreases row_len - j,
            {
                let cell: Cell = self.grid[i][j];
                proof {
                    assert(g[i as int] == self.grid@[i as int]@);
                    assert(cell == g[i as int][j as int]);
                    assert(within_pos_bounds(cell.pos));
                }
                if pos.0 >= cell.pos.0 - CELL_PADDING && pos.0 <= cell.pos.0 + CELL_PADDING
                    && pos.1 >= cell.pos.1 - CELL_PADDING && pos.1 <= cell.pos.1 + CELL_PADDING {
                    found = Some((i, j));
                }
                j = j + 1;
            }
            i = i + 1;
        }
        proof {
            lemma_grid_last_cover_props(g, pos);
            match found {
                None => {}
                Some(f) => {
                    if let Some(ij) = grid_last_cover(g, pos) {
                        assert(covers(g[f.0 as int][f.1 as int], pos));
                        assert(ij == (f.0 as int, f.1 as int));
                    }
                }
            }
        }
        found
    }

    /// The one mutation point for cell state: overwrite the cell at a
    /// valid index, moving exactly one unit between the counters on a
    /// flip and leaving them untouched when the state is unchanged.
    fn change_cell_state(&mut self, index: (usize, usize), to: CellState)
        requires
            old(self).wf(),
            (index.0 as int) < old(self).cells().len(),
            (index.1 as int) < old(self).cells()[index.0 as int].len(),
        ensures
            final(self).wf(),
            final(self).cells() == old(self).cells().update(
                index.0 as int,
                old(self).cells()[index.0 as int].update(
                    index.1 as int,
                    Cell {
                        state: to,
                        pos: old(self).cells()[index.0 as int][index.1 as int].pos,
                    },
                ),
            ),
            final(self).size == old(self).size,
            final(self).alive + (if old(self).cells()[index.0 as int][index.1 as int].state
                == CellState::Alive {
                1int
            } else {
                0int
            }) == old(self).alive + (if to == CellState::Alive {
                1int
            } else {
                0int
            }),
            final(self).dead + (if old(self).cells()[index.0 as int][index.1 as int].state
                == CellState::Dead {
                1int
            } else {
                0int
            }) == old(self).dead + (if to == CellState::Dead {
                1int
            } else {
                0int
            }),
    {
        let ghost g = self.cells();
        let i: usize = index.0;
        let j: usize = index.1;
        proof {
            assert(g[i as int] == self.grid@[i as int]@);
        }
        let cur: Cell = self.grid[i][j];
        proof {
            assert(cur == g[i as int][j as int]);
        }
        let replacement = Cell::new(to, cur.pos);
        let mut row: Vec<Cell> = self.grid.remove(i);
        row.set(j, replacement);
        self.grid.insert(i, row);
        proof {
            assert(self.cells() =~= g.update(i as int, g[i as int].update(j as int, replacement)));
            lemma_row_state_count_update(g[i as int], j as int, replacement, CellState::Alive);
            lemma_row_state_count_update(g[i as int], j as int, replacement, CellState::Dead);
            lemma_grid_state_count_update(
                g,
                i as int,
                g[i as int].update(j as int, replacement),
                CellState::Alive,
            );
            lemma_grid_state_count_update(
                g,
                i as int,
                g[i as int].update(j as int, replacement),
                CellState::Dead,
            );
        }
        if cur.state == to {
            // same state written back: no flip, no counter movement
        } else {
            match to {
                CellState::Alive => {
                    proof {
                        lemma_grid_state_count_member(g, i as int, j as int, CellState::Dead);
                    }
                    self.alive = self.alive + 1;
                    self.dead = self.dead - 1;
                }
                CellState::Dead => {
                    proof {
                        lemma_grid_state_count_member(g, i as int, j as int, CellState::Alive);
                    }
                    self.dead = self.dead + 1;
                    self.alive = self.alive - 1;
                }
            }
        }
        proof {
            assert forall|a: int|
                0 <= a < self.cells().len() implies (#[trigger] self.cells()[a]).len()
                == old(self).cells()[a].len() by {
                if a != i as int {
                    assert(self.cells()[a] == g[a]);
                }
            }
        }
    }

    /// Visit the point `pos`: locate the covered cell (if any) and apply
    /// the automaton's rule. A live cell always dies; a dead cell
    /// revives only when `toggle` allows it; a point no cell covers
    /// reports `Dead` — the deliberate off-grid sentinel — and mutates
    /// nothing. Returns the visited cell's resulting state.
    pub fn change_state_at_pos(&mut self, pos: (i64, i64), toggle: bool) -> (state: CellState)
        requires
            old(self).wf(),
        ensures
            final(self).wf(),
            state == visit_result(old(self).cells(), pos, toggle),
            final(self).cells() == visit_post(old(self).cells(), pos, toggle),
            final(self).size == old(self).size,
            final(self).alive + final(self).dead == old(self).alive + old(self).dead,
            match grid_last_cover(old(self).cells(), pos) {
                Some(ij) => old(self).cells()[ij.0][ij.1].state == CellState::Dead && !toggle
                    ==> *final(self) == *old(self) && state == CellState::Dead,
                None => *final(self) == *old(self) && state == CellState::Dead,
            },
            match grid_last_cover(old(self).cells(), pos) {
                Some(ij) => {
                    let from = old(self).cells()[ij.0][ij.1].state;
                    let to = visited_state(from, toggle);
                    &&& final(self).alive + (if from == CellState::Alive {
                        1int
                    } else {
                        0int
                    }) == old(self).alive + (if to == CellState::Alive {
                        1int
                    } else {
                        0int
                    })
                    &&& final(self).dead + (if from == CellState::Dead {
                        1int
                    } else {
                        0int
                    }) == old(self).dead + (if to == CellState::Dead {
                        1int
                    } else {
                        0int
                    })
                },
                None => final(self).alive == old(self).alive && final(self).dead == old(
                    self,
                ).dead,
            },
    {
        let ghost g = self.cells();
        let found = self.cell_at(pos);
        match found {
            None => CellState::Dead,
            Some(idx) => {
                let (i, j): (usize, usize) = idx;
                proof {
                    lemma_grid_last_cover_props(g, pos);
                    assert(g[i as int] == self.grid@[i as int]@);
                }
                let cur: Cell = self.grid[i][j];
                proof {
                    assert(cur == g[i as int][j as int]);
                }
                match cur.state {
                    CellState::Alive => {
                        self.change_cell_state((i, j), CellState::Dead);
                        CellState::Dead
                    }
                    CellState::Dead => {
                        if toggle {
                            self.change_cell_state((i, j), CellState::Alive);
                            CellState::Alive
                        } else {
                            proof {
                                assert(g[i as int].update(j as int, cur) =~= g[i as int]);
                                assert(g.update(i as int, g[i as int]) =~= g);
                            }
                            CellState::Dead
                        }
                    }
                }
            }
        }
    }

    /// Direct external overwrite at a point (the right-click
    /// interaction): same lookup as a visit, unconditional overwrite of
    /// the covered cell, counters adjusted by the delta between its old
    /// and new state. A point no cell covers mutates nothing.
    pub fn set_cell_state(&mut self, pos: (i64, i64), state: CellState)
        requires
            old(self).wf(),
        ensures
            final(self).wf(),
            final(self).cells() == set_post(old(self).cells(), pos, state),
            final(self).size == old(self).size,
            final(self).alive + final(self).dead == old(self).alive + old(self).dead,
            grid_last_cover(old(self).cells(), pos) is None ==> *final(self) == *old(self),
            match grid_last_cover(old(self).cells(), pos) {
                Some(ij) => {
                    let from = old(self).cells()[ij.0][ij.1].state;
                    &&& final(self).alive + (if from == CellState::Alive {
                        1int
                    } else {
                        0int
                    }) == old(self).alive + (if state == CellState::Alive {
                        1int
                    } else {
                        0int
                    })
                    &&& final(self).dead + (if from == CellState::Dead {
                        1int
                    } else {
                        0int
                    }) == old(self).dead + (if state == CellState::Dead {
                        1int
                    } else {
                        0int
                    })
                },
                None => final(self).alive == old(self).alive && final(self).dead == old(
                    self,
                ).dead,
            },
    {
        let ghost g = self.cells();
        let found = self.cell_at(pos);
        match found {
            None => {}
            Some(idx) => {
                proof {
                    lemma_grid_last_cover_props(g, pos);
                }
                self.change_cell_state(idx, state);
            }
        }
    }
}

/// Law: visiting the same point twice with revival allowed restores the
/// grid exactly. The covered cell toggles `Alive` to `Dead` and back (or
/// `Dead` to `Alive` and back), and a point no cell covers changes
/// nothing either time.
pub proof fn lemma_visit_twice_with_revive_restores(g: Seq<Seq<Cell>>, p: (i64, i64))
    ensures
        visit_post(visit_post(g, p, true), p, true) == g,
{
    lemma_grid_last_cover_props(g, p);
    match grid_last_cover(g, p) {
        None => {}
        Some(ij) => {
            let g1 = visit_post(g, p, true);
            assert forall|a: int| 0 <= a < g.len() implies (#[trigger] g1[a]).len()
                == g[a].len() by {
                if a != ij.0 {
                    assert(g1[a] == g[a]);
                }
            }
            assert forall|a: int, b: int|
                0 <= a < g.len() && 0 <= b < g[a].len() implies (#[trigger] g1[a][b]).pos
                == g[a][b].pos by {
                if a != ij.0 {
                    assert(g1[a] == g[a]);
                } else if b != ij.1 {
                    assert(g1[a][b] == g[a][b]);
                }
            }
            lemma_grid_last_cover_same_pos(g1, g, p);
            assert(visit_post(g1, p, true) =~~= g);
        }
    }
}

} // verus!
