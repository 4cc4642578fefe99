//! The board: 81 cells in row-major order, with its validity and
//! solvedness predicates and the parser for the linear puzzle string.

use vstd::prelude::*;
use vstd::string::StrSliceExecFns;
use crate::cell::Cell;
use crate::cell::CandidateSet;
use crate::cell::cell_of_char;
use crate::cell::lemma_cell_of_char_wf;
use crate::topology::is_neighbor;
use crate::topology::group_cell;
use crate::topology::lemma_group_mates_are_neighbors;

verus! {

/// The one way parsing a puzzle string fails: its length is not 81.
#[derive(Clone, Copy, Debug, PartialEq, Eq)]
pub struct ParseBoardError;

/// The 81 cells of a grid, row-major: the cell at row `r` and column `c`
/// sits at index `r * 9 + c`.
#[derive(Clone, Debug, PartialEq)]
pub struct Board {
    pub cells: Vec<Cell>,
}

/// A cell together with where it was found: its index on the board and
/// its place within the group that was being read.
#[derive(Clone, Copy, Debug, PartialEq)]
pub struct CellAndLoc {
    pub cell: Cell,
    pub board_idx: Option<usize>,
    pub group_idx: Option<usize>,
}

impl CellAndLoc {
    /// Wraps a cell with no location yet.
    pub fn new(cell: &Cell) -> (r: CellAndLoc)
        ensures
            r.cell == *cell,
            r.board_idx is None,
            r.group_idx is None,
    {
        CellAndLoc { cell: *cell, board_idx: None, group_idx: None }
    }

    /// Records the board index the cell came from.
    pub fn with_board_idx(self, board_idx: usize) -> (r: CellAndLoc)
        ensures
            r.cell == self.cell,
            r.board_idx == Some(board_idx),
            r.group_idx == self.group_idx,
    {
        CellAndLoc { board_idx: Some(board_idx), ..self }
    }

    /// Records the cell's place within its group.
    pub fn with_group_idx(self, group_idx: usize) -> (r: CellAndLoc)
        ensures
            r.cell == self.cell,
            r.board_idx == self.board_idx,
            r.group_idx == Some(group_idx),
    {
        CellAndLoc { group_idx: Some(group_idx), ..self }
    }
}

impl Board {
    /// A board holds exactly 81 well-formed cells.
    pub open spec fn wf(self) -> bool {
        &&& self.cells@.len() == 81
        &&& forall|n: int| 0 <= n < 81 ==> (#[trigger] self.cells@[n]).wf()
    }

    /// No two cells that share a group are solved with the same digit.
    pub open spec fn valid_spec(self) -> bool {
        forall|i: int, j: int| #[trigger] is_neighbor(i, j) && self.cells@[i] is Solved
            ==> self.cells@[i] != self.cells@[j]
    }

    /// The board breaks no constraint and every cell is solved.
    pub open spec fn solved_spec(self) -> bool {
        self.valid_spec() && forall|n: int| 0 <= n < 81 ==> (#[trigger] self.cells@[n]) is Solved
    }

    /// A fresh board whose every cell is open to all nine digits.
    pub fn new() -> (b: Board)
        ensures
            b.wf(),
            forall|n: int| 0 <= n < 81
                ==> #[trigger] b.cells@[n] == Cell::Unsolved(CandidateSet::full_spec()),
    {
        let mut cells: Vec<Cell> = Vec::new();
        let mut i: usize = 0;
        while i < 81
            invariant
                i <= 81,
                cells@.len() == i,
                forall|n: int| 0 <= n < i
                    ==> #[trigger] cells@[n] == Cell::Unsolved(CandidateSet::full_spec())
                        && cells@[n].wf(),
            decreases 81 - i,
        {
            cells.push(Cell::new());
            i = i + 1;
        }
        Board { cells }
    }

    /// Parses the linear form of a puzzle: exactly 81 characters,
    /// row-major, '1' through '9' for a solved cell and anything else for
    /// an open one.  Any other length is refused.
    pub fn from_str(s: &str) -> (r: Result<Board, ParseBoardError>)
        ensures
            r is Ok <==> s@.len() == 81,
            (match r {
                Ok(b) => {
                    &&& b.wf()
                    &&& forall|n: int| 0 <= n < 81
                        ==> #[trigger] b.cells@[n] == cell_of_char(s@[n])
                },
                Err(e) => e == ParseBoardError,
            }),
    {
        let len = s.unicode_len();
        if len != 81 {
            return Err(ParseBoardError);
        }
        let mut cells: Vec<Cell> = Vec::new();
        let mut i: usize = 0;
        while i < 81
            invariant
                i <= 81,
                s@.len() == 81,
                cells@.len() == i,
                forall|n: int| 0 <= n < i
                    ==> #[trigger] cells@[n] == cell_of_char(s@[n]) && cells@[n].wf(),
            decreases 81 - i,
        {
            let ch = s.get_char(i);
            let c = Cell::from(ch);
            proof {
                lemma_cell_of_char_wf(s@[i as int]);
            }
            cells.push(c);
            i = i + 1;
        }
        Ok(Board { cells })
    }

    /// Whether the board breaks no constraint: no solved cell has a
    /// neighbor solved with the same digit.
    pub fn valid(&self) -> (r: bool)
        requires
            self.wf(),
        ensures
            r == self.valid_spec(),
    {
        let mut i: usize = 0;
        while i < 81
            invariant
                self.wf(),
                i <= 81,
                forall|i2: int, j: int| #[trigger] is_neighbor(i2, j) && i2 < i
                    && self.cells@[i2] is Solved ==> self.cells@[i2] != self.cells@[j],
            decreases 81 - i,
        {
            let cell = self.cells[i];
            if matches!(cell, Cell::Solved(_)) {
                let nbrs = Board::all_neighbors(i);
                let mut t: usize = 0;
                while t < nbrs.len()
                    invariant
                        self.wf(),
                        i < 81,
                        cell == self.cells@[i as int],
                        cell is Solved,
                        t <= nbrs@.len(),
                        nbrs@.len() == 20,
                        forall|k: int| 0 <= k < nbrs@.len()
                            ==> is_neighbor(i as int, #[trigger] nbrs@[k] as int),
                        forall|j: int| #[trigger] is_neighbor(i as int, j)
                            ==> nbrs@.contains(j as usize),
                        forall|k: int| 0 <= k < t
                            ==> self.cells@[i as int] != self.cells@[#[trigger] nbrs@[k] as int],
                    decreases nbrs@.len() - t,
                {
                    let j = nbrs[t];
                    if self.cells[j] == cell {
                        proof {
                            assert(is_neighbor(i as int, j as int));
                        }
                        return false;
                    }
                    t = t + 1;
                }
                proof {
                    assert forall|j: int| #[trigger] is_neighbor(i as int, j)
                        implies self.cells@[i as int] != self.cells@[j] by {
                        assert(nbrs@.contains(j as usize));
                        let k = choose|k: int|
                            0 <= k < nbrs@.len() && #[trigger] nbrs@[k] == j as usize;
                        assert(self.cells@[i as int] != self.cells@[nbrs@[k] as int]);
                    }
                }
            }
            i = i + 1;
        }
        true
    }

    /// Whether the board is completely and consistently filled: it is
    /// valid and every cell is solved.
    pub fn solved(&self) -> (r: bool)
        requires
            self.wf(),
        ensures
            r == self.solved_spec(),
    {
        if !self.valid() {
            return false;
        }
        let mut i: usize = 0;
        while i < 81
            invariant
                self.wf(),
                i <= 81,
                forall|n: int| 0 <= n < i ==> (#[trigger] self.cells@[n]) is Solved,
            decreases 81 - i,
        {
            if !matches!(self.cells[i], Cell::Solved(_)) {
                return false;
            }
            i = i + 1;
        }
        true
    }

    /// The cells at the given group's indices, each tagged with its board
    /// index and its place in the group.
    pub fn get_cells(&self, group: &Vec<usize>) -> (r: Vec<CellAndLoc>)
        requires
            self.wf(),
            forall|k: int| 0 <= k < group@.len() ==> #[trigger] group@[k] < 81,
        ensures
            r@.len() == group@.len(),
            forall|k: int| 0 <= k < r@.len()
                ==> #[trigger] r@[k] == (CellAndLoc {
                    cell: self.cells@[group@[k] as int],
                    board_idx: Some(group@[k]),
                    group_idx: Some(k as usize),
                }),
    {
        let mut r: Vec<CellAndLoc> = Vec::new();
        let mut k: usize = 0;
        while k < group.len()
            invariant
                self.wf(),
                k <= group@.len(),
                forall|l: int| 0 <= l < group@.len() ==> #[trigger] group@[l] < 81,
                r@.len() == k,
                forall|l: int| 0 <= l < k
                    ==> #[trigger] r@[l] == (CellAndLoc {
                        cell: self.cells@[group@[l] as int],
                        board_idx: Some(group@[l]),
                        group_idx: Some(l as usize),
                    }),
            decreases group@.len() - k,
        {
            let idx = group[k];
            r.push(CellAndLoc::new(&self.cells[idx]).with_group_idx(k).with_board_idx(idx));
            k = k + 1;
        }
        r
    }

    /// A fresh copy of the cells, for a strategy to narrow.
    pub fn clone_cells(&self) -> (r: Vec<Cell>)
        ensures
            r@ == self.cells@,
    {
        copy_cells(&self.cells)
    }
}

/// A fresh copy of a cell vector.
pub fn copy_cells(cells: &Vec<Cell>) -> (r: Vec<Cell>)
    ensures
        r@ == cells@,
{
    let mut r: Vec<Cell> = Vec::new();
    let mut i: usize = 0;
    while i < cells.len()
        invariant
            i <= cells@.len(),
            r@.len() == i,
            forall|n: int| 0 <= n < i ==> #[trigger] r@[n] == cells@[n],
        decreases cells@.len() - i,
    {
        r.push(cells[i]);
        i = i + 1;
    }
    proof {
        assert(r@ =~= cells@);
    }
    r
}

/// A board of fully open cells breaks no constraint, yet is not solved.
pub proof fn lemma_open_board_valid_not_solved(b: Board)
    requires
        b.wf(),
        forall|n: int| 0 <= n < 81
            ==> #[trigger] b.cells@[n] == Cell::Unsolved(CandidateSet::full_spec()),
    ensures
        b.valid_spec(),
        !b.solved_spec(),
{
    assert forall|i: int, j: int| #[trigger] is_neighbor(i, j) && b.cells@[i] is Solved
        implies b.cells@[i] != b.cells@[j] by {
        assert(b.cells@[i] == Cell::Unsolved(CandidateSet::full_spec()));
    }
    assert(!(b.cells@[0] is Solved));
}

/// Two cells of one group solved with the same digit make the board
/// invalid.
pub proof fn lemma_duplicate_in_group_invalid(b: Board, g: int, k1: int, k2: int)
    requires
        b.wf(),
        0 <= g < 27,
        0 <= k1 < 9,
        0 <= k2 < 9,
        k1 != k2,
        b.cells@[group_cell(g, k1)] is Solved,
        b.cells@[group_cell(g, k1)] == b.cells@[group_cell(g, k2)],
    ensures
        !b.valid_spec(),
{
    lemma_group_mates_are_neighbors(g, k1, k2);
}

/// A completely filled board that breaks no constraint is solved.
pub proof fn lemma_filled_valid_is_solved(b: Board)
    requires
        b.wf(),
        b.valid_spec(),
        forall|n: int| 0 <= n < 81 ==> (#[trigger] b.cells@[n]) is Solved,
    ensures
        b.solved_spec(),
{
}

} // verus!
