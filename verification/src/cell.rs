//! Candidate sets and cells.
//!
//! A [`CandidateSet`] is a nine-bit mask over the digits 1 through 9; a
//! [`Cell`] is either solved with one digit or unsolved with a candidate
//! set.  The mathematical model of a candidate set is the `Set<int>` of
//! digits whose bits are set.

use vstd::prelude::*;
use vstd::set_lib::lemma_int_range;
use vstd::set_lib::set_int_range;

verus! {

/// The digits a cell may still hold, as a bit mask: bit `d - 1` is set
/// exactly when digit `d` is still possible.
#[derive(Clone, Copy, PartialEq, Eq, Debug, Structural)]
pub struct CandidateSet {
    pub mask: u16,
}

impl CandidateSet {
    /// Only the nine low bits may be used.
    pub open spec fn wf(self) -> bool {
        self.mask < 0x200
    }

    /// Whether digit `d` is in the set.
    pub open spec fn has_digit(self, d: int) -> bool {
        1 <= d <= 9 && (self.mask >> ((d - 1) as u16)) & 1 == 1
    }

    /// The mathematical set of digits this mask holds.
    pub open spec fn digit_set(self) -> Set<int> {
        Set::new(|d: int| self.has_digit(d))
    }

    /// How many digits the set holds.
    pub open spec fn card(self) -> nat {
        self.digit_set().len()
    }

    /// The mask holding every digit.
    pub open spec fn full_spec() -> CandidateSet {
        CandidateSet { mask: 0x1ff }
    }

    /// The digits of `self` that are strictly below `d`.
    pub open spec fn digits_below(self, d: int) -> Set<int> {
        Set::new(|x: int| x < d && self.has_digit(x))
    }

    /// `self` with digit `d` cleared.
    pub open spec fn spec_without(self, d: int) -> CandidateSet {
        CandidateSet { mask: self.mask & !(1u16 << ((d - 1) as u16)) }
    }

    /// `self` with digit `d` set.
    pub open spec fn spec_with(self, d: int) -> CandidateSet {
        CandidateSet { mask: self.mask | (1u16 << ((d - 1) as u16)) }
    }

    /// The least digit of the set, or 10 if the set is empty.
    pub open spec fn min_digit(self) -> int {
        min_digit_from(self, 1)
    }

    /// The set with no digits.
    pub fn empty() -> (r: CandidateSet)
        ensures
            r == (CandidateSet { mask: 0u16 }),
            r.digit_set() =~= Set::<int>::empty(),
            r.wf(),
    {
        let r = CandidateSet { mask: 0u16 };
        proof {
            assert(forall|d: int| !r.has_digit(d)) by {
                assert(forall|i: u16| i < 9 ==> (0u16 >> i) & 1 == 0) by (bit_vector);
            }
        }
        r
    }

    /// The set with every digit.
    pub fn full() -> (r: CandidateSet)
        ensures
            r == CandidateSet::full_spec(),
            r.wf(),
    {
        CandidateSet { mask: 0x1ff }
    }

    /// Membership test for digit `d`.
    pub fn contains(&self, d: usize) -> (r: bool)
        ensures
            r == self.has_digit(d as int),
    {
        1 <= d && d <= 9 && (self.mask >> ((d - 1) as u16)) & 1 == 1
    }

    /// The set with digit `d` removed.
    pub fn without(self, d: usize) -> (r: CandidateSet)
        requires
            1 <= d <= 9,
        ensures
            r == self.spec_without(d as int),
    {
        CandidateSet { mask: self.mask & !(1u16 << ((d - 1) as u16)) }
    }

    /// The set with digit `d` added.
    pub fn with(self, d: usize) -> (r: CandidateSet)
        requires
            1 <= d <= 9,
        ensures
            r == self.spec_with(d as int),
    {
        CandidateSet { mask: self.mask | (1u16 << ((d - 1) as u16)) }
    }

    /// Counts the digits of the set.
    pub fn count(&self) -> (n: usize)
        ensures
            n == self.card(),
            n <= 9,
    {
        let mut n: usize = 0;
        let mut d: usize = 1;
        proof {
            lemma_digit_set_finite(*self);
            assert(self.digits_below(1) =~= Set::<int>::empty());
        }
        while d <= 9
            invariant
                1 <= d <= 10,
                n == self.digits_below(d as int).len(),
                self.digits_below(d as int).finite(),
                n <= d - 1,
            decreases 10 - d,
        {
            proof {
                lemma_digits_below_step(*self, d as int);
            }
            if self.contains(d) {
                n = n + 1;
            }
            d = d + 1;
        }
        proof {
            assert(self.digits_below(10) =~= self.digit_set());
        }
        n
    }

    /// The least digit of the set; meaningful only when the set is not empty.
    pub fn least(&self) -> (r: usize)
        requires
            self.card() > 0,
        ensures
            r == self.min_digit(),
            1 <= r <= 9,
            self.has_digit(r as int),
    {
        proof {
            lemma_digit_set_finite(*self);
            if self.digit_set() =~= Set::<int>::empty() {
                assert(self.card() == 0);
            }
            let w = self.digit_set().choose();
            assert(self.digit_set().contains(w));
            lemma_min_digit_from(*self, 1);
        }
        let mut d: usize = 1;
        while d < 9 && !self.contains(d)
            invariant
                1 <= d <= 9,
                min_digit_from(*self, 1) == min_digit_from(*self, d as int),
                exists|x: int| self.has_digit(x) && d <= x,
            decreases 9 - d,
        {
            proof {
                let x = choose|x: int| self.has_digit(x) && d <= x;
                assert(self.has_digit(x) && d + 1 <= x);
            }
            d = d + 1;
        }
        proof {
            lemma_min_digit_from(*self, d as int);
            if !self.has_digit(d as int) {
                let x = choose|x: int| self.has_digit(x) && d <= x;
                assert(d == 9 && x == 9);
            }
        }
        d
    }
}

/// What can go wrong when a digit is removed from a cell.
#[derive(Clone, Copy, PartialEq, Eq, Debug, Structural)]
pub enum CellError {
    /// The digit handed in lies outside 1 through 9.
    InvalidDigit,
    /// The digit handed in is the cell's own solved digit; no correct
    /// elimination rule ever asks for that.
    RemoveSolvedDigit,
}

/// One cell of the grid: solved with a single digit, or unsolved with the
/// set of digits it may still hold.
#[derive(Clone, Copy, PartialEq, Eq, Debug, Structural)]
pub enum Cell {
    Solved(usize),
    Unsolved(CandidateSet),
}

impl Cell {
    /// A solved digit lies in 1 through 9; an unsolved candidate set never
    /// holds exactly one digit, since such a cell turns solved at once.
    pub open spec fn wf(self) -> bool {
        match self {
            Cell::Solved(v) => 1 <= v <= 9,
            Cell::Unsolved(s) => s.wf() && s.card() != 1,
        }
    }

    /// The digits this cell could still be.
    pub open spec fn digits_spec(self) -> Set<int> {
        match self {
            Cell::Solved(v) => set![v as int],
            Cell::Unsolved(s) => s.digit_set(),
        }
    }

    /// How many digits this cell could still be.
    pub open spec fn count_spec(self) -> nat {
        match self {
            Cell::Solved(_) => 1,
            Cell::Unsolved(s) => s.card(),
        }
    }

    /// What removing digit `d` does: an error for a digit out of range or
    /// for the cell's own solved digit, a no-op for another solved digit,
    /// and otherwise the shrunken candidate set, turned solved the moment
    /// one digit is left.
    pub open spec fn remove_result(self, d: int) -> Result<Cell, CellError> {
        if !(1 <= d <= 9) {
            Err(CellError::InvalidDigit)
        } else {
            match self {
                Cell::Solved(v) => if v as int == d {
                    Err(CellError::RemoveSolvedDigit)
                } else {
                    Ok(self)
                },
                Cell::Unsolved(s) => {
                    let s2 = s.spec_without(d);
                    if s2.card() == 1 {
                        Ok(Cell::Solved(s2.min_digit() as usize))
                    } else {
                        Ok(Cell::Unsolved(s2))
                    }
                },
            }
        }
    }

    /// A fresh cell that can hold any digit.
    pub fn new() -> (c: Cell)
        ensures
            c == Cell::Unsolved(CandidateSet::full_spec()),
            c.wf(),
            c.digits_spec() == set_int_range(1, 10),
    {
        proof {
            lemma_full_digit_set();
        }
        Cell::Unsolved(CandidateSet::full())
    }

    /// A cell that can hold exactly the digits listed; a single listed
    /// digit yields a solved cell.
    pub fn from_digits(digits: &[usize]) -> (c: Cell)
        requires
            forall|i: int| 0 <= i < digits@.len() ==> 1 <= #[trigger] digits@[i] <= 9,
        ensures
            c.wf(),
            c.digits_spec() == seq_digit_set(digits@),
            c is Solved <==> seq_digit_set(digits@).len() == 1,
    {
        let ghost ds = digits@;
        let mut s = CandidateSet::empty();
        let mut i: usize = 0;
        proof {
            assert(seq_digit_set(ds.take(0)) =~= Set::<int>::empty());
        }
        while i < digits.len()
            invariant
                0 <= i <= ds.len(),
                digits@ == ds,
                forall|k: int| 0 <= k < ds.len() ==> 1 <= #[trigger] ds[k] <= 9,
                s.wf(),
                s.digit_set() == seq_digit_set(ds.take(i as int)),
            decreases ds.len() - i,
        {
            let d = digits[i];
            proof {
                lemma_with_digit_set(s, d as int);
                assert(seq_digit_set(ds.take(i + 1)) =~= s.digit_set().insert(d as int)) by {
                    assert(forall|k: int| 0 <= k < i + 1 ==> ds.take(i + 1)[k] == ds[k]);
                    assert(forall|k: int| 0 <= k < i ==> ds.take(i as int)[k] == ds[k]);
                    assert forall|x: int| seq_digit_set(ds.take(i + 1)).contains(x)
                        implies s.digit_set().insert(d as int).contains(x) by {
                        let k = choose|k: int| 0 <= k < ds.take(i + 1).len()
                            && #[trigger] ds.take(i + 1)[k] == x;
                        if k < i {
                            assert(ds.take(i as int)[k] == x);
                        }
                    }
                    assert forall|x: int| s.digit_set().insert(d as int).contains(x)
                        implies seq_digit_set(ds.take(i + 1)).contains(x) by {
                        if x == d as int {
                            assert(ds.take(i + 1)[i as int] == x);
                        } else {
                            let k = choose|k: int| 0 <= k < ds.take(i as int).len()
                                && #[trigger] ds.take(i as int)[k] == x;
                            assert(ds.take(i + 1)[k] == x);
                        }
                    }
                }
            }
            s = s.with(d);
            i = i + 1;
        }
        proof {
            assert(ds.take(ds.len() as int) =~= ds);
            lemma_digit_set_finite(s);
        }
        let n = s.count();
        if n == 1 {
            proof {
                lemma_singleton_digit_set(s);
            }
            Cell::Solved(s.least())
        } else {
            Cell::Unsolved(s)
        }
    }

    /// Removes `digit` from the digits this cell could be.  Removing the
    /// solved digit of a solved cell fails; removing any other digit from a
    /// solved cell is a no-op; removing from an unsolved cell shrinks its
    /// candidate set and solves the cell once one candidate is left.
    pub fn remove(&mut self, digit: usize) -> (r: Result<(), CellError>)
        requires
            old(self).wf(),
        ensures
            final(self).wf(),
            (match old(self).remove_result(digit as int) {
                Ok(c) => r == Ok::<(), CellError>(()) && *final(self) == c,
                Err(e) => r == Err::<(), CellError>(e) && *final(self) == *old(self),
            }),
    {
        if digit < 1 || 9 < digit {
            return Err(CellError::InvalidDigit);
        }
        match *self {
            Cell::Solved(v) => {
                if v == digit {
                    Err(CellError::RemoveSolvedDigit)
                } else {
                    Ok(())
                }
            },
            Cell::Unsolved(s) => {
                let s2 = s.without(digit);
                proof {
                    lemma_without_digit_set(s, digit as int);
                    lemma_digit_set_finite(s2);
                }
                if s2.count() == 1 {
                    proof {
                        lemma_singleton_digit_set(s2);
                    }
                    let v = s2.least();
                    *self = Cell::Solved(v);
                } else {
                    *self = Cell::Unsolved(s2);
                }
                Ok(())
            },
        }
    }

    /// The number of digits this cell could still be.
    pub fn count(&self) -> (n: usize)
        requires
            self.wf(),
        ensures
            n == self.count_spec(),
    {
        match self {
            Cell::Solved(_) => 1,
            Cell::Unsolved(s) => s.count(),
        }
    }

    /// The digits this cell could still be, in increasing order.
    pub fn digits(&self) -> (r: Vec<usize>)
        requires
            self.wf(),
        ensures
            r@.len() == self.count_spec(),
            forall|k: int, l: int| 0 <= k < l < r@.len() ==> r@[k] < r@[l],
            forall|k: int| 0 <= k < r@.len()
                ==> 1 <= #[trigger] r@[k] <= 9 && self.digits_spec().contains(r@[k] as int),
            forall|d: int| self.digits_spec().contains(d)
                ==> exists|k: int| 0 <= k < r@.len() && r@[k] == d,
    {
        match self {
            Cell::Solved(v) => {
                let mut r = Vec::new();
                r.push(*v);
                proof {
                    assert forall|dd: int| self.digits_spec().contains(dd)
                        implies exists|k: int| 0 <= k < r@.len() && r@[k] == dd by {
                        assert(r@[0] == *v);
                    }
                }
                r
            },
            Cell::Unsolved(s) => {
                let mut r: Vec<usize> = Vec::new();
                let mut d: usize = 1;
                proof {
                    lemma_digit_set_finite(*s);
                    assert(s.digits_below(1) =~= Set::<int>::empty());
                }
                while d <= 9
                    invariant
                        1 <= d <= 10,
                        r@.len() == s.digits_below(d as int).len(),
                        s.digits_below(d as int).finite(),
                        forall|k: int, l: int| 0 <= k < l < r@.len() ==> r@[k] < r@[l],
                        forall|k: int| 0 <= k < r@.len()
                            ==> 1 <= #[trigger] r@[k] < d && s.has_digit(r@[k] as int),
                        forall|x: int| 1 <= x < d && s.has_digit(x)
                            ==> exists|k: int| 0 <= k < r@.len() && r@[k] == x,
                    decreases 10 - d,
                {
                    proof {
                        lemma_digits_below_step(*s, d as int);
                    }
                    if s.contains(d) {
                        let ghost old_r = r@;
                        r.push(d);
                        proof {
                            assert forall|x: int| 1 <= x < d + 1 && s.has_digit(x)
                                implies exists|k: int| 0 <= k < r@.len() && r@[k] == x by {
                                if x == d as int {
                                    assert(r@[r@.len() - 1] == d);
                                } else {
                                    let k = choose|k: int|
                                        0 <= k < old_r.len() && #[trigger] old_r[k] == x;
                                    assert(r@[k] == x);
                                }
                            }
                        }
                    }
                    d = d + 1;
                }
                r
            },
        }
    }
}

/// The cell a puzzle character stands for: '1' through '9' (code points 49
/// through 57) give the solved cell of that digit; every other character,
/// '0' included, gives a fresh fully open cell.
pub open spec fn cell_of_char(ch: char) -> Cell {
    if 49 <= ch as u32 && ch as u32 <= 57 {
        Cell::Solved((ch as u32 - 48) as usize)
    } else {
        Cell::Unsolved(CandidateSet::full_spec())
    }
}

impl From<char> for Cell {
    /// Parsing one character of a puzzle string goes through
    /// `cell_of_char`.
    fn from(ch: char) -> (c: Cell) {
        let u = ch as u32;
        if 49 <= u && u <= 57 {
            Cell::Solved((u - 48) as usize)
        } else {
            Cell::new()
        }
    }
}

impl vstd::std_specs::convert::FromSpecImpl<char> for Cell {
    open spec fn obeys_from_spec() -> bool {
        true
    }

    open spec fn from_spec(ch: char) -> Cell {
        cell_of_char(ch)
    }
}

/// Every character parses to a well-formed cell.
pub proof fn lemma_cell_of_char_wf(ch: char)
    ensures
        cell_of_char(ch).wf(),
{
    lemma_full_digit_set();
}

/// The set of digits a sequence holds.
pub open spec fn seq_digit_set(ds: Seq<usize>) -> Set<int> {
    Set::new(|d: int| exists|i: int| 0 <= i < ds.len() && #[trigger] ds[i] == d)
}

/// A candidate set with exactly one digit holds exactly its least digit.
pub proof fn lemma_singleton_digit_set(s: CandidateSet)
    requires
        s.card() == 1,
    ensures
        s.digit_set() == set![s.min_digit()],
        1 <= s.min_digit() <= 9,
        s.has_digit(s.min_digit()),
{
    lemma_digit_set_finite(s);
    if s.digit_set() =~= Set::<int>::empty() {
        assert(s.card() == 0);
    }
    let w = s.digit_set().choose();
    assert(s.has_digit(w));
    lemma_min_digit_from(s, 1);
    let m = s.min_digit();
    assert(s.has_digit(m));
    assert forall|x: int| s.digit_set().contains(x) implies x == m by {
        if x != m {
            let t = s.digit_set().remove(m);
            assert(t.len() == 0);
            assert(t.contains(x));
        }
    }
    assert(s.digit_set() =~= set![m]);
}

/// Two well-formed cells are equal exactly when they hold the same digits;
/// the detection of a naked pair rests on this.
pub proof fn lemma_cell_eq_iff_digits_eq(c1: Cell, c2: Cell)
    requires
        c1.wf(),
        c2.wf(),
    ensures
        c1 == c2 <==> c1.digits_spec() == c2.digits_spec(),
{
    if c1.digits_spec() == c2.digits_spec() {
        match (c1, c2) {
            (Cell::Solved(a), Cell::Solved(b)) => {
                assert(c1.digits_spec().contains(a as int));
                assert(set![b as int].contains(a as int));
            },
            (Cell::Solved(a), Cell::Unsolved(s)) => {
                assert(set![a as int].len() == 1);
                assert(s.card() == 1);
            },
            (Cell::Unsolved(s), Cell::Solved(b)) => {
                assert(set![b as int].len() == 1);
                assert(s.card() == 1);
            },
            (Cell::Unsolved(s1), Cell::Unsolved(s2)) => {
                lemma_digit_set_ext(s1, s2);
            },
        }
    }
}

/// A cell holding every digit is the fully open cell that `Cell::new`
/// yields: building a cell from all nine digits and building a fresh one
/// are the same.
pub proof fn lemma_full_cell_is_new(c: Cell)
    requires
        c.wf(),
        c.digits_spec() == set_int_range(1, 10),
    ensures
        c == Cell::Unsolved(CandidateSet::full_spec()),
{
    lemma_full_digit_set();
    lemma_int_range(1, 10);
    lemma_cell_eq_iff_digits_eq(c, Cell::Unsolved(CandidateSet::full_spec()));
}

/// The least digit of `s` that is at least `d`, or 10 if there is none.
pub open spec fn min_digit_from(s: CandidateSet, d: int) -> int
    decreases 10 - d when d <= 10
{
    if d >= 10 {
        10
    } else if s.has_digit(d) {
        d
    } else {
        min_digit_from(s, d + 1)
    }
}

/// What the scan for the least digit yields: a member that bounds all
/// members from below, or 10 when no digit at or above `d` is present.
pub proof fn lemma_min_digit_from(s: CandidateSet, d: int)
    requires
        1 <= d <= 10,
    ensures
        (exists|x: int| s.has_digit(x) && d <= x) ==> {
            let m = min_digit_from(s, d);
            &&& d <= m <= 9
            &&& s.has_digit(m)
            &&& forall|x: int| s.has_digit(x) && d <= x ==> m <= x
        },
        !(exists|x: int| s.has_digit(x) && d <= x) ==> min_digit_from(s, d) == 10,
    decreases 10 - d,
{
    if d < 10 {
        lemma_min_digit_from(s, d + 1);
        if s.has_digit(d) {
        } else {
            if exists|x: int| s.has_digit(x) && d <= x {
                let x = choose|x: int| s.has_digit(x) && d <= x;
                assert(s.has_digit(x) && d + 1 <= x);
            }
        }
    }
}

/// A candidate set holds at most nine digits.
pub proof fn lemma_digit_set_finite(s: CandidateSet)
    ensures
        s.digit_set().finite(),
        s.digit_set().len() <= 9,
        s.digits_below(10) == s.digit_set(),
{
    lemma_int_range(1, 10);
    assert(s.digit_set().subset_of(set_int_range(1, 10)));
    vstd::set_lib::lemma_len_subset(s.digit_set(), set_int_range(1, 10));
    assert(s.digits_below(10) =~= s.digit_set());
}

/// One step of the digit-counting scan.
proof fn lemma_digits_below_step(s: CandidateSet, d: int)
    requires
        s.digits_below(d).finite(),
    ensures
        s.has_digit(d) ==> s.digits_below(d + 1) == s.digits_below(d).insert(d)
            && s.digits_below(d + 1).len() == s.digits_below(d).len() + 1,
        !s.has_digit(d) ==> s.digits_below(d + 1) == s.digits_below(d),
        s.digits_below(d + 1).finite(),
{
    if s.has_digit(d) {
        assert(s.digits_below(d + 1) =~= s.digits_below(d).insert(d));
        assert(!s.digits_below(d).contains(d));
    } else {
        assert(s.digits_below(d + 1) =~= s.digits_below(d));
    }
}

/// Clearing one bit: every digit but `d` is kept, and `d` is gone.
pub proof fn lemma_without_digit_set(s: CandidateSet, d: int)
    requires
        1 <= d <= 9,
    ensures
        s.spec_without(d).digit_set() == s.digit_set().remove(d),
        s.wf() ==> s.spec_without(d).wf(),
{
    let m = s.mask;
    let j = (d - 1) as u16;
    assert(m < 0x200 ==> (m & !(1u16 << j)) < 0x200) by (bit_vector);
    assert forall|x: int| s.spec_without(d).has_digit(x) <==> (s.has_digit(x) && x != d) by {
        if 1 <= x <= 9 {
            let i = (x - 1) as u16;
            assert(i < 9);
            assert((((m & !(1u16 << j)) >> i) & 1 == 1) <==> ((m >> i) & 1 == 1 && i != j))
                by (bit_vector)
                requires i < 9, j < 9;
            assert(i == j <==> x == d);
        }
    }
    assert(s.spec_without(d).digit_set() =~= s.digit_set().remove(d));
}

/// Setting one bit: digit `d` joins the set and the rest are kept.
pub proof fn lemma_with_digit_set(s: CandidateSet, d: int)
    requires
        1 <= d <= 9,
    ensures
        s.spec_with(d).digit_set() == s.digit_set().insert(d),
        s.wf() ==> s.spec_with(d).wf(),
{
    let m = s.mask;
    let j = (d - 1) as u16;
    assert(m < 0x200 ==> (m | (1u16 << j)) < 0x200) by (bit_vector)
        requires j < 9;
    assert forall|x: int| s.spec_with(d).has_digit(x) <==> (s.has_digit(x) || x == d) by {
        if 1 <= x <= 9 {
            let i = (x - 1) as u16;
            assert(i < 9);
            assert((((m | (1u16 << j)) >> i) & 1 == 1) <==> ((m >> i) & 1 == 1 || i == j))
                by (bit_vector)
                requires i < 9, j < 9;
            assert(i == j <==> x == d);
        }
    }
    assert forall|x: int|
        s.spec_with(d).digit_set().contains(x) == s.digit_set().insert(d).contains(x) by {
        assert(s.spec_with(d).has_digit(x) <==> (s.has_digit(x) || x == d));
    }
    assert(s.spec_with(d).digit_set() =~= s.digit_set().insert(d));
}

/// Two well-formed masks with the same digits are the same mask.
pub proof fn lemma_digit_set_ext(s1: CandidateSet, s2: CandidateSet)
    requires
        s1.wf(),
        s2.wf(),
        s1.digit_set() == s2.digit_set(),
    ensures
        s1 == s2,
{
    let m1 = s1.mask;
    let m2 = s2.mask;
    assert forall|i: u16| i < 9 implies (m1 >> i) & 1 == (m2 >> i) & 1 by {
        let d: int = i + 1;
        assert((d - 1) as u16 == i);
        assert(s1.digit_set().contains(d) <==> s1.has_digit(d));
        assert(s2.digit_set().contains(d) <==> s2.has_digit(d));
        assert(s1.digit_set().contains(d) == s2.digit_set().contains(d));
        assert(s1.has_digit(d) == s2.has_digit(d));
        assert(((m1 >> i) & 1 == 0) || ((m1 >> i) & 1 == 1)) by (bit_vector);
        assert(((m2 >> i) & 1 == 0) || ((m2 >> i) & 1 == 1)) by (bit_vector);
    }
    assert(m1 == m2) by (bit_vector)
        requires
            m1 < 0x200,
            m2 < 0x200,
            (m1 >> 0u16) & 1 == (m2 >> 0u16) & 1,
            (m1 >> 1u16) & 1 == (m2 >> 1u16) & 1,
            (m1 >> 2u16) & 1 == (m2 >> 2u16) & 1,
            (m1 >> 3u16) & 1 == (m2 >> 3u16) & 1,
            (m1 >> 4u16) & 1 == (m2 >> 4u16) & 1,
            (m1 >> 5u16) & 1 == (m2 >> 5u16) & 1,
            (m1 >> 6u16) & 1 == (m2 >> 6u16) & 1,
            (m1 >> 7u16) & 1 == (m2 >> 7u16) & 1,
            (m1 >> 8u16) & 1 == (m2 >> 8u16) & 1,
    ;
}

/// The full mask holds every digit from 1 through 9.
pub proof fn lemma_full_digit_set()
    ensures
        CandidateSet::full_spec().digit_set() == set_int_range(1, 10),
        CandidateSet::full_spec().card() == 9,
        CandidateSet::full_spec().wf(),
{
    assert forall|x: int| CandidateSet::full_spec().has_digit(x) <==> 1 <= x < 10 by {
        if 1 <= x <= 9 {
            let i = (x - 1) as u16;
            assert(i < 9);
            assert((0x1ffu16 >> i) & 1 == 1) by (bit_vector)
                requires i < 9;
        }
    }
    assert(CandidateSet::full_spec().digit_set() =~= set_int_range(1, 10));
    lemma_int_range(1, 10);
}

} // verus!
