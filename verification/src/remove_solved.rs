//! Direct-neighbor elimination: every solved cell's digit is struck from
//! the candidate sets of its 20 neighbors, in one pass over the board.

use vstd::prelude::*;
use crate::board::Board;
use crate::cell::Cell;
use crate::cell::lemma_digit_set_ext;
use crate::cell::lemma_digit_set_finite;
use crate::topology::is_neighbor;

verus! {

/// Whether some neighbor of `n` is solved with digit `d`.
pub open spec fn neighbor_solved(cells: Seq<Cell>, n: int, d: int) -> bool {
    1 <= d <= 9 && exists|m: int| #[trigger] is_neighbor(n, m)
        && cells[m] == Cell::Solved(d as usize)
}

/// The digits of the cell at `n` that no solved neighbor claims: exactly
/// those survive one pass of the rule.
pub open spec fn surviving_digits(cells: Seq<Cell>, n: int) -> Set<int> {
    Set::new(|d: int| cells[n].digits_spec().contains(d) && !neighbor_solved(cells, n, d))
}

/// Every unsolved cell keeps at least one digit that no solved neighbor
/// claims.  On a board that breaks this, the pass would strip some cell
/// of its last candidate while trying to remove a solved digit, which the
/// cell refuses; such boards are already contradictory and lie outside
/// the rule's domain.
pub open spec fn elimination_safe(cells: Seq<Cell>) -> bool {
    forall|n: int| 0 <= n < 81 && (#[trigger] cells[n]) is Unsolved
        ==> exists|d: int| cells[n].digits_spec().contains(d) && !neighbor_solved(cells, n, d)
}

/// What one pass leaves at position `n`: a solved cell is kept, and an
/// unsolved cell keeps exactly its surviving digits, turning solved when
/// a single one is left.
pub open spec fn rs_cell_post(old_cells: Seq<Cell>, c: Cell, n: int) -> bool {
    match old_cells[n] {
        Cell::Solved(_) => c == old_cells[n],
        Cell::Unsolved(_) => {
            let surv = surviving_digits(old_cells, n);
            if surv.len() == 1 {
                c == Cell::Solved(surv.choose() as usize)
            } else {
                c is Unsolved && c.wf() && c.digits_spec() == surv
            }
        },
    }
}

/// The digits removed from cell `n` by the first `t` entries of its
/// neighbor list.
pub open spec fn removed_prefix(cells: Seq<Cell>, nbrs: Seq<usize>, t: int) -> Set<int> {
    Set::new(|d: int| 1 <= d <= 9 && exists|k: int|
        0 <= k < t && cells[(#[trigger] nbrs[k]) as int] == Cell::Solved(d as usize))
}

/// The strategy that removes every solved cell's digit from all of its
/// neighbors.
pub struct RemoveSolvedFromNeighbors;

impl RemoveSolvedFromNeighbors {
    /// A fresh instance of the rule.
    pub fn new() -> (r: RemoveSolvedFromNeighbors)
        ensures
            r == RemoveSolvedFromNeighbors,
    {
        RemoveSolvedFromNeighbors
    }

    /// The rule's stable name, for diagnostics.
    pub fn name(&self) -> (r: String)
        ensures
            r@ == "RemoveSolvedFromNeighbors"@,
    {
        broadcast use vstd::string::to_string_from_display_ensures_for_str;

        "RemoveSolvedFromNeighbors".to_string()
    }

    /// One pass over the board: for every solved cell, its digit is
    /// removed from the candidate sets of all 20 of its neighbors.  The
    /// input is untouched; the pass reads solved digits from it alone, so
    /// the outcome does not depend on the order cells are visited in.
    pub fn apply(&self, board: &Board) -> (out: Board)
        requires
            board.wf(),
            board.valid_spec(),
            elimination_safe(board.cells@),
        ensures
            out.wf(),
            forall|n: int| 0 <= n < 81 ==> rs_cell_post(board.cells@, #[trigger] out.cells@[n], n),
    {
        let mut result: Vec<Cell> = Vec::new();
        let mut n: usize = 0;
        while n < 81
            invariant
                board.wf(),
                board.valid_spec(),
                elimination_safe(board.cells@),
                n <= 81,
                result@.len() == n,
                forall|m: int| 0 <= m < n
                    ==> rs_cell_post(board.cells@, #[trigger] result@[m], m) && result@[m].wf(),
            decreases 81 - n,
        {
            let c0 = board.cells[n];
            if matches!(c0, Cell::Solved(_)) {
                result.push(c0);
            } else {
                let nc = eliminate_for(board, n);
                result.push(nc);
            }
            n = n + 1;
        }
        Board { cells: result }
    }
}

/// Strikes from the unsolved cell at `n` the digit of each of its solved
/// neighbors, one removal at a time, reading the digits from the
/// untouched input board.
fn eliminate_for(board: &Board, n: usize) -> (c: Cell)
    requires
        board.wf(),
        n < 81,
        board.cells@[n as int] is Unsolved,
        exists|d: int| board.cells@[n as int].digits_spec().contains(d)
            && !neighbor_solved(board.cells@, n as int, d),
    ensures
        rs_cell_post(board.cells@, c, n as int),
        c.wf(),
{
    let ghost cells = board.cells@;
    let ghost s0 = cells[n as int].digits_spec();
    let nbrs = Board::all_neighbors(n);
    let mut cell = board.cells[n];
    let mut t: usize = 0;
    proof {
        assert(removed_prefix(cells, nbrs@, 0) =~= Set::<int>::empty());
        assert(cell.digits_spec() =~= s0.difference(removed_prefix(cells, nbrs@, 0)));
        lemma_digit_set_finite(cell->Unsolved_0);
    }
    while t < nbrs.len()
        invariant
            board.wf(),
            cells == board.cells@,
            n < 81,
            cells[n as int] is Unsolved,
            s0 == cells[n as int].digits_spec(),
            exists|d: int| cells[n as int].digits_spec().contains(d)
                && !neighbor_solved(cells, n as int, d),
            t <= nbrs@.len(),
            nbrs@.len() == 20,
            forall|k: int| 0 <= k < nbrs@.len()
                ==> is_neighbor(n as int, #[trigger] nbrs@[k] as int),
            forall|j: int| #[trigger] is_neighbor(n as int, j) ==> nbrs@.contains(j as usize),
            cell.wf(),
            cell.digits_spec() == s0.difference(removed_prefix(cells, nbrs@, t as int)),
            cell is Solved <==> s0.difference(removed_prefix(cells, nbrs@, t as int)).len() == 1,
        decreases nbrs@.len() - t,
    {
        let ghost r_old = removed_prefix(cells, nbrs@, t as int);
        let m = nbrs[t];
        let nb_cell = board.cells[m];
        match nb_cell {
            Cell::Solved(d) => {
                proof {
                    assert(nb_cell.wf());
                    assert(1 <= d <= 9);
                    assert(cells[(nbrs@[t as int]) as int] == Cell::Solved(d));
                    assert forall|x: int| removed_prefix(cells, nbrs@, t + 1).contains(x)
                        implies r_old.insert(d as int).contains(x) by {
                        let k = choose|k: int| 0 <= k < t + 1
                            && cells[(#[trigger] nbrs@[k]) as int] == Cell::Solved(x as usize);
                        if k < t {
                            assert(r_old.contains(x));
                        } else {
                            assert(x as usize == d);
                        }
                    }
                    assert forall|x: int| r_old.insert(d as int).contains(x)
                        implies removed_prefix(cells, nbrs@, t + 1).contains(x) by {
                        if x == d as int {
                            assert(cells[(nbrs@[t as int]) as int] == Cell::Solved(x as usize));
                        } else {
                            let k = choose|k: int| 0 <= k < t
                                && cells[(#[trigger] nbrs@[k]) as int]
                                    == Cell::Solved(x as usize);
                            assert(cells[(nbrs@[k]) as int] == Cell::Solved(x as usize));
                        }
                    }
                    assert(removed_prefix(cells, nbrs@, t + 1) =~= r_old.insert(d as int));
                    // every digit removed so far is claimed by some neighbor
                    assert forall|x: int| r_old.contains(x)
                        implies neighbor_solved(cells, n as int, x) by {
                        let k = choose|k: int| 0 <= k < t
                            && cells[(#[trigger] nbrs@[k]) as int] == Cell::Solved(x as usize);
                        assert(is_neighbor(n as int, nbrs@[k] as int));
                    }
                    // the cell cannot be solved with exactly this digit:
                    // some digit of the cell survives every solved
                    // neighbor, and this removal would contradict it
                    if cell == Cell::Solved(d) {
                        let f = choose|f: int| cells[n as int].digits_spec().contains(f)
                            && !neighbor_solved(cells, n as int, f);
                        assert(s0.difference(r_old).contains(f));
                        assert(cell.digits_spec() == set![d as int]);
                        assert(f == d as int);
                        assert(is_neighbor(n as int, m as int));
                        assert(neighbor_solved(cells, n as int, f));
                        assert(false);
                    }
                }
                let ghost pre_cell = cell;
                let res = cell.remove(d);
                proof {
                    assert(res is Ok);
                    let r_new = removed_prefix(cells, nbrs@, t + 1);
                    assert(s0.difference(r_new) =~= s0.difference(r_old).remove(d as int));
                    match pre_cell {
                        Cell::Solved(e) => {
                            // a no-op: the solved digit is not this one,
                            // so the singleton set keeps its element
                            assert(cell == pre_cell);
                            assert(pre_cell.digits_spec() == set![e as int]);
                            assert(!s0.difference(r_old).contains(d as int));
                            assert(s0.difference(r_new) =~= s0.difference(r_old));
                        },
                        Cell::Unsolved(s) => {
                            crate::cell::lemma_without_digit_set(s, d as int);
                            let s2 = s.spec_without(d as int);
                            lemma_digit_set_finite(s2);
                            if s2.card() == 1 {
                                crate::cell::lemma_singleton_digit_set(s2);
                            }
                            assert(cell.digits_spec() == s2.digit_set());
                            assert(s2.digit_set() =~= s0.difference(r_new));
                        },
                    }
                }
            },
            _ => {
                proof {
                    assert(!(cells[(nbrs@[t as int]) as int] is Solved));
                    assert forall|x: int| removed_prefix(cells, nbrs@, t + 1).contains(x)
                        implies r_old.contains(x) by {
                        let k = choose|k: int| 0 <= k < t + 1
                            && cells[(#[trigger] nbrs@[k]) as int] == Cell::Solved(x as usize);
                        assert(k < t);
                    }
                    assert(removed_prefix(cells, nbrs@, t + 1) =~= r_old);
                }
            },
        }
        t = t + 1;
    }
    proof {
        let d_full = removed_prefix(cells, nbrs@, nbrs@.len() as int);
        assert forall|x: int| d_full.contains(x)
            implies neighbor_solved(cells, n as int, x) by {
            let k = choose|k: int| 0 <= k < nbrs@.len()
                && cells[(#[trigger] nbrs@[k]) as int] == Cell::Solved(x as usize);
            assert(is_neighbor(n as int, nbrs@[k] as int));
        }
        assert forall|x: int| neighbor_solved(cells, n as int, x)
            implies d_full.contains(x) by {
            let m2 = choose|m2: int| #[trigger] is_neighbor(n as int, m2)
                && cells[m2] == Cell::Solved(x as usize);
            assert(nbrs@.contains(m2 as usize));
            let k = choose|k: int| 0 <= k < nbrs@.len() && #[trigger] nbrs@[k] == m2 as usize;
            assert(cells[(nbrs@[k]) as int] == Cell::Solved(x as usize));
        }
        assert(surviving_digits(cells, n as int) =~= s0.difference(d_full));
        if cell is Solved {
            let surv = surviving_digits(cells, n as int);
            assert(surv.len() == 1);
            assert(surv.contains(surv.choose()));
            assert(cell.digits_spec() == surv);
            assert(cell.digits_spec().contains(cell->Solved_0 as int));
            assert(cell == Cell::Solved(surv.choose() as usize));
        }
    }
    cell
}

/// Decides at run time whether the board is safe for one pass of the
/// rule: every unsolved cell keeps some digit that no solved neighbor
/// claims.  Callers outside verified code test the rule's precondition
/// with this before applying it.
pub fn check_elimination_safe(board: &Board) -> (r: bool)
    requires
        board.wf(),
    ensures
        r == elimination_safe(board.cells@),
{
    let ghost cells = board.cells@;
    let mut n: usize = 0;
    while n < 81
        invariant
            board.wf(),
            cells == board.cells@,
            n <= 81,
            forall|m: int| 0 <= m < n && (#[trigger] cells[m]) is Unsolved
                ==> exists|d: int| cells[m].digits_spec().contains(d)
                    && !neighbor_solved(cells, m, d),
        decreases 81 - n,
    {
        let c = board.cells[n];
        if matches!(c, Cell::Unsolved(_)) {
            let nbrs = Board::all_neighbors(n);
            let mut found = false;
            let mut d: usize = 1;
            while d <= 9 && !found
                invariant
                    board.wf(),
                    cells == board.cells@,
                    n < 81,
                    c == cells[n as int],
                    1 <= d <= 10,
                    nbrs@.len() == 20,
                    forall|k: int| 0 <= k < nbrs@.len()
                        ==> is_neighbor(n as int, #[trigger] nbrs@[k] as int),
                    forall|j: int| #[trigger] is_neighbor(n as int, j)
                        ==> nbrs@.contains(j as usize),
                    !found ==> forall|x: int| 1 <= x < d
                        ==> !(cells[n as int].digits_spec().contains(x)
                            && !neighbor_solved(cells, n as int, x)),
                    found ==> exists|x: int| cells[n as int].digits_spec().contains(x)
                        && !neighbor_solved(cells, n as int, x),
                decreases 10 - d,
        {
                let in_cell = match c {
                    Cell::Unsolved(s) => s.contains(d),
                    Cell::Solved(v) => v == d,
                };
                if in_cell {
                    let mut taken = false;
                    let mut t: usize = 0;
                    while t < nbrs.len()
                        invariant
                            board.wf(),
                            cells == board.cells@,
                            n < 81,
                            1 <= d <= 9,
                            t <= nbrs@.len(),
                            nbrs@.len() == 20,
                            forall|k: int| 0 <= k < nbrs@.len()
                                ==> is_neighbor(n as int, #[trigger] nbrs@[k] as int),
                            forall|j: int| #[trigger] is_neighbor(n as int, j)
                                ==> nbrs@.contains(j as usize),
                            taken ==> neighbor_solved(cells, n as int, d as int),
                            !taken ==> forall|k: int| 0 <= k < t
                                ==> cells[(#[trigger] nbrs@[k]) as int]
                                    != Cell::Solved(d),
                        decreases nbrs@.len() - t,
                    {
                        let m = nbrs[t];
                        if matches!(board.cells[m], Cell::Solved(_)) {
                            let is_d = match board.cells[m] {
                                Cell::Solved(v) => v == d,
                                _ => false,
                            };
                            if is_d {
                                proof {
                                    assert(is_neighbor(n as int, m as int));
                                }
                                taken = true;
                            }
                        }
                        t = t + 1;
                    }
                    if !taken {
                        proof {
                            assert(!neighbor_solved(cells, n as int, d as int)) by {
                                if neighbor_solved(cells, n as int, d as int) {
                                    let m2 = choose|m2: int| #[trigger]
                                        is_neighbor(n as int, m2)
                                        && cells[m2] == Cell::Solved(d);
                                    assert(nbrs@.contains(m2 as usize));
                                    let k = choose|k: int| 0 <= k < nbrs@.len()
                                        && #[trigger] nbrs@[k] == m2 as usize;
                                    assert(cells[(nbrs@[k]) as int] == Cell::Solved(d));
                                }
                            }
                            assert(cells[n as int].digits_spec().contains(d as int));
                        }
                        found = true;
                    }
                }
                d = d + 1;
            }
            if !found {
                proof {
                    assert forall|x: int|
                        !(cells[n as int].digits_spec().contains(x)
                            && !neighbor_solved(cells, n as int, x)) by {
                        if cells[n as int].digits_spec().contains(x) {
                            assert(1 <= x <= 9);
                        }
                    }
                }
                return false;
            }
        }
        n = n + 1;
    }
    true
}

/// Running the rule a second time changes nothing, provided the first
/// pass solved no cell: the solved cells, and with them the struck
/// digits, are then the same in both passes.
pub proof fn lemma_remove_solved_idempotent(b0: Seq<Cell>, b1: Seq<Cell>, b2: Seq<Cell>)
    requires
        b0.len() == 81,
        b1.len() == 81,
        b2.len() == 81,
        forall|n: int| 0 <= n < 81 ==> (#[trigger] b0[n]).wf(),
        forall|n: int| 0 <= n < 81 ==> (#[trigger] b1[n]).wf(),
        forall|n: int| 0 <= n < 81 ==> rs_cell_post(b0, #[trigger] b1[n], n),
        forall|n: int| 0 <= n < 81 ==> rs_cell_post(b1, #[trigger] b2[n], n),
        forall|n: int| 0 <= n < 81 && (#[trigger] b0[n]) is Unsolved ==> b1[n] is Unsolved,
    ensures
        b2 == b1,
{
    assert forall|n: int, d: int| 0 <= n < 81
        implies (neighbor_solved(b1, n, d) <==> #[trigger] neighbor_solved(b0, n, d)) by {
        if neighbor_solved(b1, n, d) {
            let m = choose|m: int| #[trigger] is_neighbor(n, m)
                && b1[m] == Cell::Solved(d as usize);
            assert(b0[m] is Solved);
            assert(b1[m] == b0[m]);
            assert(neighbor_solved(b0, n, d));
        }
        if neighbor_solved(b0, n, d) {
            let m = choose|m: int| #[trigger] is_neighbor(n, m)
                && b0[m] == Cell::Solved(d as usize);
            assert(b1[m] == b0[m]);
            assert(neighbor_solved(b1, n, d));
        }
    }
    assert forall|n: int| 0 <= n < 81 implies #[trigger] b2[n] == b1[n] by {
        if b0[n] is Solved {
            assert(b1[n] == b0[n]);
            assert(b2[n] == b1[n]);
        } else {
            let surv0 = surviving_digits(b0, n);
            let surv1 = surviving_digits(b1, n);
            assert(b1[n] is Unsolved);
            assert(surv0.len() != 1);
            assert(b1[n].digits_spec() == surv0);
            assert(surv1 =~= surv0);
            match b1[n] {
                Cell::Unsolved(s1) => {
                    lemma_digit_set_finite(s1);
                    assert(surv1.len() != 1);
                    assert(b2[n] is Unsolved && b2[n].digits_spec() == surv1);
                    match b2[n] {
                        Cell::Unsolved(s2) => {
                            lemma_digit_set_ext(s1, s2);
                        },
                        _ => {
                            assert(false);
                        },
                    }
                },
                _ => {
                    assert(false);
                },
            }
        }
    }
    assert(b2 =~= b1);
}

} // verus!
