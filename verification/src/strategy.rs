//! The strategy registry: the closed, ordered set of elimination rules a
//! caller can select and sequence.  Each rule is a pure transformation
//! from one board snapshot to a new one.

use vstd::prelude::*;
use crate::board::Board;
use crate::naked_pair::NakedPair;
use crate::naked_pair::naked_pair_run;
use crate::remove_solved::RemoveSolvedFromNeighbors;
use crate::remove_solved::elimination_safe;
use crate::remove_solved::rs_cell_post;

verus! {

/// One of the engine's elimination rules.  The set of rules is closed,
/// so a registry entry is a variant holding the rule rather than a trait
/// object.
pub enum Strategy {
    RemoveSolvedFromNeighbors(RemoveSolvedFromNeighbors),
    NakedPair(NakedPair),
}

impl Strategy {
    /// What a rule asks of its input board, beyond well-formedness.
    pub open spec fn pre(self, b: Board) -> bool {
        match self {
            Strategy::RemoveSolvedFromNeighbors(_) => b.valid_spec()
                && elimination_safe(b.cells@),
            Strategy::NakedPair(_) => naked_pair_run(b.cells@) is Some,
        }
    }

    /// What a rule promises of its output board.
    pub open spec fn post(self, b: Board, out: Board) -> bool {
        match self {
            Strategy::RemoveSolvedFromNeighbors(_) => forall|n: int|
                0 <= n < 81 ==> rs_cell_post(b.cells@, #[trigger] out.cells@[n], n),
            Strategy::NakedPair(_) => Some(out.cells@) == naked_pair_run(b.cells@),
        }
    }

    /// The rule's stable name, for diagnostics.
    pub fn name(&self) -> (r: String)
        ensures
            self is RemoveSolvedFromNeighbors ==> r@ == "RemoveSolvedFromNeighbors"@,
            self is NakedPair ==> r@ == "NakedPair"@,
    {
        match self {
            Strategy::RemoveSolvedFromNeighbors(s) => s.name(),
            Strategy::NakedPair(s) => s.name(),
        }
    }

    /// Applies the rule to a board, yielding a new board and leaving the
    /// input untouched.
    pub fn apply(&self, board: &Board) -> (out: Board)
        requires
            board.wf(),
            self.pre(*board),
        ensures
            out.wf(),
            self.post(*board, out),
    {
        match self {
            Strategy::RemoveSolvedFromNeighbors(s) => s.apply(board),
            Strategy::NakedPair(s) => s.apply(board),
        }
    }
}

/// The ordered registry of the known rules.
pub fn get_strategies() -> (r: Vec<Strategy>)
    ensures
        r@.len() == 2,
        r@[0] is RemoveSolvedFromNeighbors,
        r@[1] is NakedPair,
{
    let mut r: Vec<Strategy> = Vec::new();
    r.push(Strategy::RemoveSolvedFromNeighbors(RemoveSolvedFromNeighbors::new()));
    r.push(Strategy::NakedPair(NakedPair::new()));
    r
}

} // verus!
