//! Naked-pair elimination: when exactly the same two-candidate cell
//! appears at least twice in a group, those two digits belong to those
//! cells, and are struck from every other cell of the group.

use vstd::prelude::*;
use vstd::pervasive::VecAdditionalExecFns;
use crate::board::Board;
use crate::board::copy_cells;
use crate::cell::Cell;
use crate::cell::lemma_digit_set_finite;
use crate::cell::lemma_min_digit_from;
use crate::cell::lemma_singleton_digit_set;
use crate::cell::lemma_without_digit_set;
use crate::topology::group_cell;
use crate::topology::group_member;

verus! {

/// The smaller digit of a two-candidate cell.
pub open spec fn pair_lo(c: Cell) -> int {
    c->Unsolved_0.min_digit()
}

/// The larger digit of a two-candidate cell.
pub open spec fn pair_hi(c: Cell) -> int {
    c->Unsolved_0.spec_without(pair_lo(c)).min_digit()
}

/// A naked-pair signature: an unsolved cell with exactly two candidates.
pub open spec fn is_pair(c: Cell) -> bool {
    c is Unsolved && c.count_spec() == 2
}

/// How many of the first `i` cells of group `g` equal `sig`.
pub open spec fn sig_count(cells: Seq<Cell>, g: int, sig: Cell, i: int) -> int
    decreases i,
{
    if i <= 0 {
        0
    } else {
        sig_count(cells, g, sig, i - 1)
            + (if cells[group_cell(g, i - 1)] == sig { 1int } else { 0int })
    }
}

/// Removes the pair's two digits from one cell, through the cell's own
/// removal rule; `None` when the cell is solved with one of them.
pub open spec fn np_elim_cell(c: Cell, a: int, b: int) -> Option<Cell> {
    match c.remove_result(a) {
        Ok(c1) => match c1.remove_result(b) {
            Ok(c2) => Some(c2),
            Err(_) => None,
        },
        Err(_) => None,
    }
}

/// Strikes the pair `sig` from the first `i` members of group `g`, cells
/// equal to the pair itself exempt; `None` once any removal fails.
pub open spec fn np_apply_sig(cells: Seq<Cell>, g: int, sig: Cell, i: int) -> Option<Seq<Cell>>
    decreases i,
{
    if i <= 0 {
        Some(cells)
    } else {
        match np_apply_sig(cells, g, sig, i - 1) {
            None => None,
            Some(cur) => {
                let idx = group_cell(g, i - 1);
                if cur[idx] == sig {
                    Some(cur)
                } else {
                    match np_elim_cell(cur[idx], pair_lo(sig), pair_hi(sig)) {
                        Some(c2) => Some(cur.update(idx, c2)),
                        None => None,
                    }
                }
            },
        }
    }
}

/// One scan step at place `k` of group `g`: when the snapshot taken on
/// entering the group holds a two-candidate cell there whose exact pair
/// occurs at least twice in the group, the pair's digits are struck from
/// every other cell of the group as it now stands.
pub open spec fn np_group_step(cur: Seq<Cell>, snap: Seq<Cell>, g: int, k: int) -> Option<
    Seq<Cell>,
> {
    let sig = snap[group_cell(g, k)];
    if is_pair(sig) && sig_count(snap, g, sig, 9) >= 2 {
        np_apply_sig(cur, g, sig, 9)
    } else {
        Some(cur)
    }
}

/// The scan of the first `k` places of group `g`, each judged against the
/// snapshot taken when the group was entered.
pub open spec fn np_group(cur: Seq<Cell>, snap: Seq<Cell>, g: int, k: int) -> Option<Seq<Cell>>
    decreases k,
{
    if k <= 0 {
        Some(cur)
    } else {
        match np_group(cur, snap, g, k - 1) {
            None => None,
            Some(c2) => np_group_step(c2, snap, g, k - 1),
        }
    }
}

/// The pass over the first `g` groups; each group is scanned against the
/// board as it stands when that group is reached.
pub open spec fn np_groups(cells: Seq<Cell>, g: int) -> Option<Seq<Cell>>
    decreases g,
{
    if g <= 0 {
        Some(cells)
    } else {
        match np_groups(cells, g - 1) {
            None => None,
            Some(c2) => np_group(c2, c2, g - 1, 9),
        }
    }
}

/// The whole pass: the nine rows, then the nine columns, then the nine
/// boxes.
pub open spec fn naked_pair_run(cells: Seq<Cell>) -> Option<Seq<Cell>> {
    np_groups(cells, 27)
}

/// A failed removal poisons the rest of the group scan, so success of the
/// whole implies success of every prefix.
proof fn lemma_np_apply_sig_prefix(cells: Seq<Cell>, g: int, sig: Cell, i: int, j: int)
    requires
        0 <= i <= j,
        np_apply_sig(cells, g, sig, j) is Some,
    ensures
        np_apply_sig(cells, g, sig, i) is Some,
    decreases j - i,
{
    if i < j {
        assert(np_apply_sig(cells, g, sig, j - 1) is Some);
        lemma_np_apply_sig_prefix(cells, g, sig, i, j - 1);
    }
}

/// Success of a group scan implies success of every prefix of it.
proof fn lemma_np_group_prefix(cur: Seq<Cell>, snap: Seq<Cell>, g: int, k: int, j: int)
    requires
        0 <= k <= j,
        np_group(cur, snap, g, j) is Some,
    ensures
        np_group(cur, snap, g, k) is Some,
    decreases j - k,
{
    if k < j {
        assert(np_group(cur, snap, g, j - 1) is Some);
        lemma_np_group_prefix(cur, snap, g, k, j - 1);
    }
}

/// Success of the whole pass implies success after any number of groups.
proof fn lemma_np_groups_prefix(cells: Seq<Cell>, g: int, j: int)
    requires
        0 <= g <= j,
        np_groups(cells, j) is Some,
    ensures
        np_groups(cells, g) is Some,
    decreases j - g,
{
    if g < j {
        assert(np_groups(cells, j - 1) is Some);
        lemma_np_groups_prefix(cells, g, j - 1);
    }
}

/// The strategy that eliminates naked pairs group by group.
pub struct NakedPair;

impl NakedPair {
    /// A fresh instance of the rule.
    pub fn new() -> (r: NakedPair)
        ensures
            r == NakedPair,
    {
        NakedPair
    }

    /// The rule's stable name, for diagnostics.
    pub fn name(&self) -> (r: String)
        ensures
            r@ == "NakedPair"@,
    {
        broadcast use vstd::string::to_string_from_display_ensures_for_str;

        "NakedPair".to_string()
    }

    /// One pass over all 27 groups.  In each group, every two-candidate
    /// cell whose exact pair appears at least twice in the group (as it
    /// stood when the group was entered) has its two digits removed from
    /// every other cell of that group; cells equal to the pair itself are
    /// exempt.  The input board is untouched.
    pub fn apply(&self, board_in: &Board) -> (out: Board)
        requires
            board_in.wf(),
            naked_pair_run(board_in.cells@) is Some,
        ensures
            out.wf(),
            Some(out.cells@) == naked_pair_run(board_in.cells@),
    {
        let ghost cells0 = board_in.cells@;
        let mut cells: Vec<Cell> = board_in.clone_cells();
        let mut g: usize = 0;
        while g < 27
            invariant
                g <= 27,
                naked_pair_run(cells0) is Some,
                Some(cells@) == np_groups(cells0, g as int),
                cells@.len() == 81,
                forall|n: int| 0 <= n < 81 ==> (#[trigger] cells@[n]).wf(),
            decreases 27 - g,
        {
            let ghost cells_g = cells@;
            proof {
                lemma_np_groups_prefix(cells0, g + 1, 27);
                assert(np_group(cells_g, cells_g, g as int, 9) is Some);
            }
            let snap = copy_cells(&cells);
            let mut k: usize = 0;
            while k < 9
                invariant
                    g < 27,
                    k <= 9,
                    snap@ == cells_g,
                    snap@.len() == 81,
                    forall|n: int| 0 <= n < 81 ==> (#[trigger] snap@[n]).wf(),
                    cells@.len() == 81,
                    forall|n: int| 0 <= n < 81 ==> (#[trigger] cells@[n]).wf(),
                    Some(cells@) == np_group(cells_g, cells_g, g as int, k as int),
                    np_group(cells_g, cells_g, g as int, 9) is Some,
                decreases 9 - k,
            {
                proof {
                    lemma_np_group_prefix(cells_g, cells_g, g as int, k + 1, 9);
                }
                let ghost cells_k = cells@;
                let idxk = group_member(g, k);
                let sig = snap[idxk];
                let pair = matches!(sig, Cell::Unsolved(_)) && sig.count() == 2;
                if pair {
                    let mut cnt: usize = 0;
                    let mut t: usize = 0;
                    while t < 9
                        invariant
                            t <= 9,
                            g < 27,
                            snap@.len() == 81,
                            cnt == sig_count(snap@, g as int, sig, t as int),
                            cnt <= t,
                        decreases 9 - t,
                    {
                        let it = group_member(g, t);
                        if snap[it] == sig {
                            cnt = cnt + 1;
                        }
                        t = t + 1;
                    }
                    if cnt >= 2 {
                        let ds = sig.digits();
                        let a = ds[0];
                        let b = ds[1];
                        proof {
                            let s = sig->Unsolved_0;
                            lemma_digit_set_finite(s);
                            lemma_min_digit_from(s, 1);
                            assert(s.digit_set().contains(ds@[0] as int));
                            assert(s.digit_set().contains(ds@[1] as int));
                            assert(s.has_digit(ds@[0] as int) && 1 <= ds@[0] as int);
                            let mn = s.min_digit();
                            assert(s.has_digit(mn));
                            assert(s.digit_set().contains(mn));
                            let kk = choose|kk: int|
                                0 <= kk < ds@.len() && #[trigger] ds@[kk] == mn;
                            assert(ds@[0] as int == mn);
                            lemma_without_digit_set(s, mn);
                            let s2 = s.spec_without(mn);
                            assert(s2.digit_set() == s.digit_set().remove(mn));
                            assert(s2.card() == 1);
                            lemma_singleton_digit_set(s2);
                            assert(s2.digit_set().contains(ds@[1] as int));
                            assert(ds@[1] as int == s2.min_digit());
                            assert(a as int == pair_lo(sig));
                            assert(b as int == pair_hi(sig));
                        }
                        let mut t2: usize = 0;
                        while t2 < 9
                            invariant
                                t2 <= 9,
                                g < 27,
                                cells@.len() == 81,
                                forall|n: int| 0 <= n < 81 ==> (#[trigger] cells@[n]).wf(),
                                a as int == pair_lo(sig),
                                b as int == pair_hi(sig),
                                Some(cells@) == np_apply_sig(cells_k, g as int, sig, t2 as int),
                                np_apply_sig(cells_k, g as int, sig, 9) is Some,
                            decreases 9 - t2,
                        {
                            proof {
                                lemma_np_apply_sig_prefix(cells_k, g as int, sig, t2 + 1, 9);
                            }
                            let idx = group_member(g, t2);
                            let cur = cells[idx];
                            if !(cur == sig) {
                                proof {
                                    assert(np_elim_cell(cur, pair_lo(sig), pair_hi(sig)) is Some);
                                }
                                let mut c = cells[idx];
                                c.remove(a).unwrap();
                                c.remove(b).unwrap();
                                cells.set(idx, c);
                                proof {
                                    assert(Some(cells@)
                                        == np_apply_sig(cells_k, g as int, sig, t2 + 1));
                                }
                            }
                            t2 = t2 + 1;
                        }
                        proof {
                            assert(Some(cells@)
                                == np_group_step(cells_k, snap@, g as int, k as int));
                        }
                    } else {
                        proof {
                            assert(Some(cells@)
                                == np_group_step(cells_k, snap@, g as int, k as int));
                        }
                    }
                } else {
                    proof {
                        assert(Some(cells@)
                            == np_group_step(cells_k, snap@, g as int, k as int));
                    }
                }
                k = k + 1;
            }
            g = g + 1;
        }
        Board { cells }
    }
}

} // verus!
