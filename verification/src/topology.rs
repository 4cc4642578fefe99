//! The fixed geometry of the grid: which cells share a row, a column or a
//! box, the 20 neighbors of every cell, and the 27 groups (9 rows, 9
//! columns, 9 boxes) that partition the 81 positions.

use vstd::prelude::*;
use vstd::arithmetic::div_mod::lemma_fundamental_div_mod;
use vstd::arithmetic::div_mod::lemma_fundamental_div_mod_converse;
use vstd::arithmetic::div_mod::lemma_mod_bound;
use crate::board::Board;

verus! {

/// Two positions lie in the same row.
pub open spec fn same_row(i: int, j: int) -> bool {
    i / 9 == j / 9
}

/// Two positions lie in the same column.
pub open spec fn same_col(i: int, j: int) -> bool {
    i % 9 == j % 9
}

/// Two positions lie in the same 3-by-3 box.
pub open spec fn same_box(i: int, j: int) -> bool {
    (i / 9) / 3 == (j / 9) / 3 && (i % 9) / 3 == (j % 9) / 3
}

/// Two distinct positions that share a row, a column or a box constrain
/// one another.
pub open spec fn is_neighbor(i: int, j: int) -> bool {
    &&& 0 <= i < 81
    &&& 0 <= j < 81
    &&& i != j
    &&& (same_row(i, j) || same_col(i, j) || same_box(i, j))
}

impl Board {
    /// The other eight positions in the row of `idx`, in increasing order.
    pub fn row_neighbors(idx: usize) -> (r: Vec<usize>)
        requires
            idx < 81,
        ensures
            r@.len() == 8,
            forall|k: int, l: int| 0 <= k < l < r@.len() ==> r@[k] < r@[l],
            forall|k: int| 0 <= k < r@.len()
                ==> is_neighbor(idx as int, #[trigger] r@[k] as int)
                    && same_row(idx as int, r@[k] as int),
            forall|j: int| 0 <= j < 81 && #[trigger] same_row(idx as int, j) && j != idx
                ==> r@.contains(j as usize),
    {
        let row_start = idx - idx % 9;
        proof {
            lemma_fundamental_div_mod(idx as int, 9);
            lemma_mod_bound(idx as int, 9);
        }
        let mut r: Vec<usize> = Vec::new();
        let mut t: usize = 0;
        while t < 9
            invariant
                t <= 9,
                idx < 81,
                row_start == 9 * (idx as int / 9),
                row_start <= idx < row_start + 9,
                r@.len() == t - (if row_start + t > idx { 1int } else { 0int }),
                forall|k: int| 0 <= k < r@.len()
                    ==> row_start <= #[trigger] r@[k] < row_start + t && r@[k] != idx,
                forall|k: int, l: int| 0 <= k < l < r@.len() ==> r@[k] < r@[l],
                forall|j: usize| row_start <= j < row_start + t && j != idx
                    ==> #[trigger] r@.contains(j),
            decreases 9 - t,
        {
            let n = row_start + t;
            if n != idx {
                let ghost old_r = r@;
                r.push(n);
                proof {
                    assert forall|j: usize| row_start <= j < row_start + t + 1 && j != idx
                        implies #[trigger] r@.contains(j) by {
                        if j == n {
                            assert(r@[r@.len() - 1] == n);
                        } else {
                            assert(old_r.contains(j));
                            let k = choose|k: int|
                                0 <= k < old_r.len() && #[trigger] old_r[k] == j;
                            assert(r@[k] == j);
                        }
                    }
                }
            } else {
                proof {
                    assert forall|j: usize| row_start <= j < row_start + t + 1 && j != idx
                        implies #[trigger] r@.contains(j) by {
                        assert(r@.contains(j));
                    }
                }
            }
            t = t + 1;
        }
        proof {
            assert forall|k: int| 0 <= k < r@.len()
                implies is_neighbor(idx as int, #[trigger] r@[k] as int)
                    && same_row(idx as int, r@[k] as int) by {
                let j = r@[k] as int;
                lemma_fundamental_div_mod_converse(j, 9, idx as int / 9, j - row_start);
            }
            assert forall|j: int| 0 <= j < 81 && #[trigger] same_row(idx as int, j) && j != idx
                implies r@.contains(j as usize) by {
                lemma_fundamental_div_mod(j, 9);
                lemma_mod_bound(j, 9);
                assert(row_start <= j < row_start + 9);
                assert(r@.contains(j as usize));
            }
        }
        r
    }

    /// The other eight positions in the column of `idx`, in increasing
    /// order.
    pub fn column_neighbors(idx: usize) -> (r: Vec<usize>)
        requires
            idx < 81,
        ensures
            r@.len() == 8,
            forall|k: int, l: int| 0 <= k < l < r@.len() ==> r@[k] < r@[l],
            forall|k: int| 0 <= k < r@.len()
                ==> is_neighbor(idx as int, #[trigger] r@[k] as int)
                    && same_col(idx as int, r@[k] as int),
            forall|j: int| 0 <= j < 81 && #[trigger] same_col(idx as int, j) && j != idx
                ==> r@.contains(j as usize),
    {
        let col = idx % 9;
        proof {
            lemma_fundamental_div_mod(idx as int, 9);
            lemma_mod_bound(idx as int, 9);
        }
        let mut r: Vec<usize> = Vec::new();
        let mut t: usize = 0;
        while t < 9
            invariant
                t <= 9,
                idx < 81,
                col == idx as int % 9,
                col < 9,
                r@.len() == t - (if 9 * t + col > idx { 1int } else { 0int }),
                forall|k: int| 0 <= k < r@.len()
                    ==> (#[trigger] r@[k] as int) % 9 == col && r@[k] < 9 * t
                        && r@[k] != idx,
                forall|k: int, l: int| 0 <= k < l < r@.len() ==> r@[k] < r@[l],
                forall|j: usize| j < 9 * t && j as int % 9 == col && j != idx
                    ==> #[trigger] r@.contains(j),
            decreases 9 - t,
        {
            let n = col + 9 * t;
            proof {
                lemma_fundamental_div_mod_converse(n as int, 9, t as int, col as int);
            }
            let ghost old_r = r@;
            if n != idx {
                r.push(n);
            }
            proof {
                assert forall|j: usize| j < 9 * (t + 1) && j as int % 9 == col && j != idx
                    implies #[trigger] r@.contains(j) by {
                    lemma_fundamental_div_mod(j as int, 9);
                    lemma_mod_bound(j as int, 9);
                    if j as int == n as int {
                        assert(r@[r@.len() - 1] == n);
                    } else {
                        assert(j < 9 * t);
                        assert(old_r.contains(j));
                        let k = choose|k: int|
                            0 <= k < old_r.len() && #[trigger] old_r[k] == j;
                        assert(r@[k] == j);
                    }
                }
            }
            t = t + 1;
        }
        proof {
            assert forall|k: int| 0 <= k < r@.len()
                implies is_neighbor(idx as int, #[trigger] r@[k] as int)
                    && same_col(idx as int, r@[k] as int) by {}
            assert forall|j: int| 0 <= j < 81 && #[trigger] same_col(idx as int, j) && j != idx
                implies r@.contains(j as usize) by {
                assert(r@.contains(j as usize));
            }
        }
        r
    }

    /// The other eight positions in the box of `idx`, in increasing order.
    #[verifier::rlimit(80)]
    pub fn box_neighbors(idx: usize) -> (r: Vec<usize>)
        requires
            idx < 81,
        ensures
            r@.len() == 8,
            forall|k: int, l: int| 0 <= k < l < r@.len() ==> r@[k] < r@[l],
            forall|k: int| 0 <= k < r@.len()
                ==> is_neighbor(idx as int, #[trigger] r@[k] as int)
                    && same_box(idx as int, r@[k] as int),
            forall|j: int| 0 <= j < 81 && #[trigger] same_box(idx as int, j) && j != idx
                ==> r@.contains(j as usize),
    {
        let row = idx / 9;
        let col = idx % 9;
        let br = row - row % 3;
        let bc = col - col % 3;
        proof {
            lemma_fundamental_div_mod(idx as int, 9);
            lemma_mod_bound(idx as int, 9);
            lemma_fundamental_div_mod(row as int, 3);
            lemma_mod_bound(row as int, 3);
            lemma_fundamental_div_mod(col as int, 3);
            lemma_mod_bound(col as int, 3);
        }
        let mut r: Vec<usize> = Vec::new();
        let mut t: usize = 0;
        while t < 9
            invariant
                t <= 9,
                idx < 81,
                row == idx as int / 9,
                col == idx as int % 9,
                row < 9,
                col < 9,
                br == 3 * (row as int / 3),
                bc == 3 * (col as int / 3),
                br <= row < br + 3,
                bc <= col < bc + 3,
                r@.len() == t - (if t > 3 * (row as int % 3) + col as int % 3 {
                    1int
                } else {
                    0int
                }),
                forall|k: int| 0 <= k < r@.len()
                    ==> same_box(idx as int, #[trigger] r@[k] as int) && r@[k] != idx
                        && r@[k] < 81
                        && box_pos(br as int, bc as int, r@[k] as int) < t,
                forall|k: int, l: int| 0 <= k < l < r@.len() ==> r@[k] < r@[l],
                forall|j: usize| j < 81 && #[trigger] same_box(idx as int, j as int)
                    && j != idx && box_pos(br as int, bc as int, j as int) < t
                    ==> r@.contains(j),
            decreases 9 - t,
        {
            let n = (br + t / 3) * 9 + bc + t % 3;
            proof {
                lemma_fundamental_div_mod(t as int, 3);
                lemma_mod_bound(t as int, 3);
                lemma_fundamental_div_mod_converse(
                    n as int, 9, br as int + t as int / 3, bc as int + t as int % 3);
                lemma_fundamental_div_mod_converse(
                    n as int / 9, 3, row as int / 3, t as int / 3);
                lemma_fundamental_div_mod_converse(
                    n as int % 9, 3, col as int / 3, t as int % 3);
                assert(box_pos(br as int, bc as int, n as int) == t);
                assert(n as int == idx <==> t == 3 * (row as int % 3) + col as int % 3);
            }
            let ghost old_r = r@;
            if n != idx {
                r.push(n);
                proof {
                    assert forall|k: int| 0 <= k < old_r.len()
                        implies old_r[k] < n by {
                        let j = old_r[k] as int;
                        lemma_fundamental_div_mod(j, 9);
                        lemma_mod_bound(j, 9);
                        lemma_fundamental_div_mod(j / 9, 3);
                        lemma_mod_bound(j / 9, 3);
                        lemma_fundamental_div_mod(j % 9, 3);
                        lemma_mod_bound(j % 9, 3);
                    }
                }
            }
            proof {
                assert forall|j: usize| j < 81 && #[trigger] same_box(idx as int, j as int)
                    && j != idx && box_pos(br as int, bc as int, j as int) < t + 1
                    implies r@.contains(j) by {
                    lemma_fundamental_div_mod(j as int, 9);
                    lemma_mod_bound(j as int, 9);
                    lemma_fundamental_div_mod(j as int / 9, 3);
                    lemma_mod_bound(j as int / 9, 3);
                    lemma_fundamental_div_mod(j as int % 9, 3);
                    lemma_mod_bound(j as int % 9, 3);
                    if j as int == n as int {
                        assert(r@[r@.len() - 1] == n);
                    } else {
                        assert(box_pos(br as int, bc as int, j as int) < t);
                        assert(old_r.contains(j));
                        let k = choose|k: int|
                            0 <= k < old_r.len() && #[trigger] old_r[k] == j;
                        assert(r@[k] == j);
                    }
                }
            }
            t = t + 1;
        }
        proof {
            assert forall|j: int| 0 <= j < 81 && #[trigger] same_box(idx as int, j) && j != idx
                implies r@.contains(j as usize) by {
                lemma_fundamental_div_mod(j, 9);
                lemma_mod_bound(j, 9);
                lemma_fundamental_div_mod(j / 9, 3);
                lemma_mod_bound(j / 9, 3);
                lemma_fundamental_div_mod(j % 9, 3);
                lemma_mod_bound(j % 9, 3);
                assert(box_pos(br as int, bc as int, j) < 9);
                assert(r@.contains(j as usize));
            }
        }
        r
    }
}

impl Board {
    /// All 20 neighbors of `idx`: the union of its row, column and box
    /// mates, deduplicated and in increasing order.
    #[verifier::rlimit(100)]
    pub fn all_neighbors(idx: usize) -> (r: Vec<usize>)
        requires
            idx < 81,
        ensures
            r@.len() == 20,
            forall|k: int, l: int| 0 <= k < l < r@.len() ==> r@[k] < r@[l],
            forall|k: int| 0 <= k < r@.len() ==> is_neighbor(idx as int, #[trigger] r@[k] as int),
            forall|j: int| #[trigger] is_neighbor(idx as int, j) ==> r@.contains(j as usize),
    {
        let row = idx / 9;
        let col = idx % 9;
        proof {
            lemma_fundamental_div_mod(idx as int, 9);
            lemma_mod_bound(idx as int, 9);
            lemma_fundamental_div_mod(row as int, 3);
            lemma_mod_bound(row as int, 3);
            lemma_fundamental_div_mod(col as int, 3);
            lemma_mod_bound(col as int, 3);
        }
        let mut r: Vec<usize> = Vec::new();
        let mut b: usize = 0;
        while b < 9
            invariant
                b <= 9,
                idx < 81,
                row == idx as int / 9,
                col == idx as int % 9,
                row < 9,
                col < 9,
                r@.len() == nbr_count_blocks(idx as int, b as int),
                forall|k: int| 0 <= k < r@.len()
                    ==> is_neighbor(idx as int, #[trigger] r@[k] as int) && r@[k] < 9 * b,
                forall|k: int, l: int| 0 <= k < l < r@.len() ==> r@[k] < r@[l],
                forall|j: usize| j < 9 * b && is_neighbor(idx as int, j as int)
                    ==> #[trigger] r@.contains(j),
            decreases 9 - b,
        {
            let mut c: usize = 0;
            while c < 9
                invariant
                    b < 9,
                    c <= 9,
                    idx < 81,
                    row == idx as int / 9,
                    col == idx as int % 9,
                    row < 9,
                    col < 9,
                    r@.len() == nbr_count_blocks(idx as int, b as int)
                        + nbr_count_in_block(idx as int, b as int, c as int),
                    forall|k: int| 0 <= k < r@.len()
                        ==> is_neighbor(idx as int, #[trigger] r@[k] as int)
                            && r@[k] < 9 * b + c,
                    forall|k: int, l: int| 0 <= k < l < r@.len() ==> r@[k] < r@[l],
                    forall|j: usize| j < 9 * b + c && is_neighbor(idx as int, j as int)
                        ==> #[trigger] r@.contains(j),
                decreases 9 - c,
            {
                let n = 9 * b + c;
                proof {
                    lemma_fundamental_div_mod_converse(n as int, 9, b as int, c as int);
                    lemma_fundamental_div_mod(b as int, 3);
                    lemma_mod_bound(b as int, 3);
                    lemma_fundamental_div_mod(c as int, 3);
                    lemma_mod_bound(c as int, 3);
                    if 3 * (row as int / 3) <= b < 3 * (row as int / 3) + 3 {
                        lemma_fundamental_div_mod_converse(
                            b as int, 3, row as int / 3, b as int - 3 * (row as int / 3));
                    }
                    if 3 * (col as int / 3) <= c < 3 * (col as int / 3) + 3 {
                        lemma_fundamental_div_mod_converse(
                            c as int, 3, col as int / 3, c as int - 3 * (col as int / 3));
                    }
                }
                let in_box = b / 3 == row / 3 && c / 3 == col / 3;
                if (b == row || c == col || in_box) && n != idx {
                    let ghost old_r = r@;
                    r.push(n);
                    proof {
                        assert(is_neighbor(idx as int, n as int));
                        assert forall|j: usize| j < 9 * b + c + 1
                            && is_neighbor(idx as int, j as int)
                            implies #[trigger] r@.contains(j) by {
                            if j == n {
                                assert(r@[r@.len() - 1] == n);
                            } else {
                                assert(old_r.contains(j));
                                let k = choose|k: int|
                                    0 <= k < old_r.len() && #[trigger] old_r[k] == j;
                                assert(r@[k] == j);
                            }
                        }
                    }
                } else {
                    proof {
                        assert(!is_neighbor(idx as int, n as int));
                        assert forall|j: usize| j < 9 * b + c + 1
                            && is_neighbor(idx as int, j as int)
                            implies #[trigger] r@.contains(j) by {
                            assert(j != n);
                            assert(r@.contains(j));
                        }
                    }
                }
                c = c + 1;
            }
            b = b + 1;
        }
        proof {
            assert(r@.len() == nbr_count_blocks(idx as int, 9));
            assert forall|j: int| #[trigger] is_neighbor(idx as int, j)
                implies r@.contains(j as usize) by {
                assert(r@.contains(j as usize));
            }
        }
        r
    }
}

/// 1 when the condition holds, 0 otherwise.
pub open spec fn one_if(b: bool) -> int {
    if b {
        1
    } else {
        0
    }
}

/// `x` clipped to the range from 0 to 3.
pub open spec fn clamp3(x: int) -> int {
    if x <= 0 {
        0
    } else if x >= 3 {
        3
    } else {
        x
    }
}

/// How many neighbors of `idx` lie in the row blocks below `b`: 8 in the
/// cell's own row, 3 in every other row of its band of boxes, and 1 (the
/// column mate) in each remaining row.
pub open spec fn nbr_count_blocks(idx: int, b: int) -> int {
    let row = idx / 9;
    let band = 3 * (row / 3);
    let rp = one_if(b > row);
    let ib = clamp3(b - band);
    8 * rp + 3 * (ib - rp) + (b - ib)
}

/// How many neighbors of `idx` lie in row block `b` left of column `c`.
pub open spec fn nbr_count_in_block(idx: int, b: int, c: int) -> int {
    let row = idx / 9;
    let col = idx % 9;
    let band = 3 * (row / 3);
    let bc = 3 * (col / 3);
    if b == row {
        c - one_if(c > col)
    } else if band <= b < band + 3 {
        clamp3(c - bc)
    } else {
        one_if(c > col)
    }
}

/// The place of box member `j` inside the box anchored at row block `br`
/// and column block `bc`, counted row-major from 0 to 8.
pub open spec fn box_pos(br: int, bc: int, j: int) -> int {
    3 * (j / 9 - br) + (j % 9 - bc)
}

/// The board index of member `k` of group `g`: groups 0 through 8 are the
/// rows, 9 through 17 the columns, 18 through 26 the boxes.
pub open spec fn group_cell(g: int, k: int) -> int {
    if g < 9 {
        9 * g + k
    } else if g < 18 {
        (g - 9) + 9 * k
    } else {
        9 * (3 * ((g - 18) / 3) + k / 3) + 3 * ((g - 18) % 3) + k % 3
    }
}

impl Board {
    /// The nine rows, each as its nine cell indices in increasing order.
    pub fn rows() -> (r: Vec<Vec<usize>>)
        ensures
            r@.len() == 9,
            forall|g: int| 0 <= g < 9 ==> (#[trigger] r@[g])@.len() == 9,
            forall|g: int, k: int| 0 <= g < 9 && 0 <= k < 9
                ==> (#[trigger] r@[g]@[k]) == group_cell(g, k),
    {
        let mut r: Vec<Vec<usize>> = Vec::new();
        let mut g: usize = 0;
        while g < 9
            invariant
                g <= 9,
                r@.len() == g,
                forall|gi: int| 0 <= gi < g ==> (#[trigger] r@[gi])@.len() == 9,
                forall|gi: int, k: int| 0 <= gi < g && 0 <= k < 9
                    ==> (#[trigger] r@[gi]@[k]) == group_cell(gi, k),
            decreases 9 - g,
        {
            let mut grp: Vec<usize> = Vec::new();
            let mut k: usize = 0;
            while k < 9
                invariant
                    g < 9,
                    k <= 9,
                    grp@.len() == k,
                    forall|l: int| 0 <= l < k ==> (#[trigger] grp@[l]) == group_cell(g as int, l),
                decreases 9 - k,
            {
                grp.push(9 * g + k);
                k = k + 1;
            }
            r.push(grp);
            g = g + 1;
        }
        r
    }

    /// The nine columns, each as its nine cell indices in increasing order.
    pub fn columns() -> (r: Vec<Vec<usize>>)
        ensures
            r@.len() == 9,
            forall|g: int| 0 <= g < 9 ==> (#[trigger] r@[g])@.len() == 9,
            forall|g: int, k: int| 0 <= g < 9 && 0 <= k < 9
                ==> (#[trigger] r@[g]@[k]) == group_cell(9 + g, k),
    {
        let mut r: Vec<Vec<usize>> = Vec::new();
        let mut g: usize = 0;
        while g < 9
            invariant
                g <= 9,
                r@.len() == g,
                forall|gi: int| 0 <= gi < g ==> (#[trigger] r@[gi])@.len() == 9,
                forall|gi: int, k: int| 0 <= gi < g && 0 <= k < 9
                    ==> (#[trigger] r@[gi]@[k]) == group_cell(9 + gi, k),
            decreases 9 - g,
        {
            let mut grp: Vec<usize> = Vec::new();
            let mut k: usize = 0;
            while k < 9
                invariant
                    g < 9,
                    k <= 9,
                    grp@.len() == k,
                    forall|l: int| 0 <= l < k
                        ==> (#[trigger] grp@[l]) == group_cell(9 + g as int, l),
                decreases 9 - k,
            {
                grp.push(g + 9 * k);
                k = k + 1;
            }
            r.push(grp);
            g = g + 1;
        }
        r
    }

    /// The nine boxes, each as its nine cell indices in increasing order.
    pub fn boxes() -> (r: Vec<Vec<usize>>)
        ensures
            r@.len() == 9,
            forall|g: int| 0 <= g < 9 ==> (#[trigger] r@[g])@.len() == 9,
            forall|g: int, k: int| 0 <= g < 9 && 0 <= k < 9
                ==> (#[trigger] r@[g]@[k]) == group_cell(18 + g, k),
    {
        let mut r: Vec<Vec<usize>> = Vec::new();
        let mut g: usize = 0;
        while g < 9
            invariant
                g <= 9,
                r@.len() == g,
                forall|gi: int| 0 <= gi < g ==> (#[trigger] r@[gi])@.len() == 9,
                forall|gi: int, k: int| 0 <= gi < g && 0 <= k < 9
                    ==> (#[trigger] r@[gi]@[k]) == group_cell(18 + gi, k),
            decreases 9 - g,
        {
            let mut grp: Vec<usize> = Vec::new();
            let mut k: usize = 0;
            while k < 9
                invariant
                    g < 9,
                    k <= 9,
                    grp@.len() == k,
                    forall|l: int| 0 <= l < k
                        ==> (#[trigger] grp@[l]) == group_cell(18 + g as int, l),
                decreases 9 - k,
            {
                grp.push(9 * (3 * (g / 3) + k / 3) + 3 * (g % 3) + k % 3);
                k = k + 1;
            }
            r.push(grp);
            g = g + 1;
        }
        r
    }

    /// All 27 groups: the rows, then the columns, then the boxes.
    pub fn all_groups() -> (r: Vec<Vec<usize>>)
        ensures
            r@.len() == 27,
            forall|g: int| 0 <= g < 27 ==> (#[trigger] r@[g])@.len() == 9,
            forall|g: int, k: int| 0 <= g < 27 && 0 <= k < 9
                ==> (#[trigger] r@[g]@[k]) == group_cell(g, k),
    {
        let mut r: Vec<Vec<usize>> = Vec::new();
        let mut g: usize = 0;
        while g < 27
            invariant
                g <= 27,
                r@.len() == g,
                forall|gi: int| 0 <= gi < g ==> (#[trigger] r@[gi])@.len() == 9,
                forall|gi: int, k: int| 0 <= gi < g && 0 <= k < 9
                    ==> (#[trigger] r@[gi]@[k]) == group_cell(gi, k),
            decreases 27 - g,
        {
            let mut grp: Vec<usize> = Vec::new();
            let mut k: usize = 0;
            while k < 9
                invariant
                    g < 27,
                    k <= 9,
                    grp@.len() == k,
                    forall|l: int| 0 <= l < k ==> (#[trigger] grp@[l]) == group_cell(g as int, l),
                decreases 9 - k,
            {
                let n: usize = if g < 9 {
                    9 * g + k
                } else if g < 18 {
                    (g - 9) + 9 * k
                } else {
                    let gb = g - 18;
                    9 * (3 * (gb / 3) + k / 3) + 3 * (gb % 3) + k % 3
                };
                grp.push(n);
                k = k + 1;
            }
            r.push(grp);
            g = g + 1;
        }
        r
    }
}

/// Computes `group_cell` at run time.
pub fn group_member(g: usize, k: usize) -> (n: usize)
    requires
        g < 27,
        k < 9,
    ensures
        n as int == group_cell(g as int, k as int),
        n < 81,
{
    proof {
        lemma_group_cell_bounds(g as int, k as int);
    }
    if g < 9 {
        9 * g + k
    } else if g < 18 {
        (g - 9) + 9 * k
    } else {
        let gb = g - 18;
        9 * (3 * (gb / 3) + k / 3) + 3 * (gb % 3) + k % 3
    }
}

/// Every group member is a board position.
pub proof fn lemma_group_cell_bounds(g: int, k: int)
    requires
        0 <= g < 27,
        0 <= k < 9,
    ensures
        0 <= group_cell(g, k) < 81,
{
    if g >= 18 {
        lemma_fundamental_div_mod(g - 18, 3);
        lemma_mod_bound(g - 18, 3);
        lemma_fundamental_div_mod(k, 3);
        lemma_mod_bound(k, 3);
    }
}

/// Two distinct members of one group are neighbors: a group is a row, a
/// column or a box, and its cells constrain one another.
pub proof fn lemma_group_mates_are_neighbors(g: int, k1: int, k2: int)
    requires
        0 <= g < 27,
        0 <= k1 < 9,
        0 <= k2 < 9,
        k1 != k2,
    ensures
        is_neighbor(group_cell(g, k1), group_cell(g, k2)),
{
    lemma_group_cell_bounds(g, k1);
    lemma_group_cell_bounds(g, k2);
    let j1 = group_cell(g, k1);
    let j2 = group_cell(g, k2);
    if g < 9 {
        lemma_fundamental_div_mod_converse(j1, 9, g, k1);
        lemma_fundamental_div_mod_converse(j2, 9, g, k2);
    } else if g < 18 {
        lemma_fundamental_div_mod_converse(j1, 9, k1, g - 9);
        lemma_fundamental_div_mod_converse(j2, 9, k2, g - 9);
    } else {
        let q = (g - 18) / 3;
        let m = (g - 18) % 3;
        lemma_fundamental_div_mod(g - 18, 3);
        lemma_mod_bound(g - 18, 3);
        lemma_fundamental_div_mod(k1, 3);
        lemma_mod_bound(k1, 3);
        lemma_fundamental_div_mod(k2, 3);
        lemma_mod_bound(k2, 3);
        lemma_fundamental_div_mod_converse(j1, 9, 3 * q + k1 / 3, 3 * m + k1 % 3);
        lemma_fundamental_div_mod_converse(j2, 9, 3 * q + k2 / 3, 3 * m + k2 % 3);
        lemma_fundamental_div_mod_converse(j1 / 9, 3, q, k1 / 3);
        lemma_fundamental_div_mod_converse(j2 / 9, 3, q, k2 / 3);
        lemma_fundamental_div_mod_converse(j1 % 9, 3, m, k1 % 3);
        lemma_fundamental_div_mod_converse(j2 % 9, 3, m, k2 % 3);
        assert(same_box(j1, j2));
        assert(j1 != j2);
    }
}

/// The neighbor relation is the union of the row, column and box
/// relations, and the row and column relations never overlap: two distinct
/// cells cannot share both their row and their column.
pub proof fn lemma_neighbor_decomposition(i: int, j: int)
    requires
        0 <= i < 81,
        0 <= j < 81,
        i != j,
    ensures
        is_neighbor(i, j) <==> (same_row(i, j) || same_col(i, j) || same_box(i, j)),
        !(same_row(i, j) && same_col(i, j)),
{
    if same_row(i, j) && same_col(i, j) {
        lemma_fundamental_div_mod(i, 9);
        lemma_fundamental_div_mod(j, 9);
        assert(i == j);
    }
}

} // verus!
