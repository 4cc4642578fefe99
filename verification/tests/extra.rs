use sudoku_engine::board::Board;
use sudoku_engine::cell::Cell;
use sudoku_engine::cell::CellError;
use sudoku_engine::remove_solved::check_elimination_safe;
use sudoku_engine::remove_solved::RemoveSolvedFromNeighbors;
use sudoku_engine::strategy::get_strategies;

#[test]
fn test_all_neighbors_union() {
    // Every position has exactly 20 distinct neighbors: the union of its
    // 8 row mates, 8 column mates and 8 box mates.
    for idx in 0..81 {
        let all = Board::all_neighbors(idx);
        assert_eq!(all.len(), 20);
        for w in all.windows(2) {
            assert!(w[0] < w[1]);
        }
        let rn = Board::row_neighbors(idx);
        let cn = Board::column_neighbors(idx);
        let bn = Board::box_neighbors(idx);
        assert_eq!(rn.len(), 8);
        assert_eq!(cn.len(), 8);
        assert_eq!(bn.len(), 8);
        // row and column mates never coincide
        for j in &rn {
            assert!(!cn.contains(j));
        }
        let mut union: Vec<usize> = rn.clone();
        union.extend(cn.iter());
        union.extend(bn.iter());
        union.sort_unstable();
        union.dedup();
        assert_eq!(all, union);
    }
}

#[test]
fn test_all_neighbors_of_middle_cell() {
    let all = Board::all_neighbors(40);
    assert_eq!(
        all,
        [4, 13, 22, 30, 31, 32, 36, 37, 38, 39, 41, 42, 43, 44, 48, 49, 50, 58, 67, 76]
    );
}

#[test]
fn test_cell_count_and_digits() {
    let c = Cell::from_digits(&[3, 7]);
    assert_eq!(c.count(), 2);
    assert_eq!(c.digits(), vec![3, 7]);

    let s = Cell::Solved(5);
    assert_eq!(s.count(), 1);
    assert_eq!(s.digits(), vec![5]);

    assert_eq!(Cell::new().count(), 9);
    assert_eq!(Cell::new().digits(), vec![1, 2, 3, 4, 5, 6, 7, 8, 9]);
}

#[test]
fn test_from_digits_single_is_solved() {
    assert_eq!(Cell::from_digits(&[6]), Cell::Solved(6));
}

#[test]
fn test_remove_invalid_digit() {
    let mut c = Cell::new();
    assert_eq!(c.remove(0), Err(CellError::InvalidDigit));
    assert_eq!(c.remove(10), Err(CellError::InvalidDigit));
    assert_eq!(c, Cell::new());

    let mut s = Cell::Solved(4);
    assert_eq!(s.remove(0), Err(CellError::InvalidDigit));
    assert_eq!(s, Cell::Solved(4));
}

#[test]
fn test_remove_solved_digit_error_kind() {
    let mut s = Cell::Solved(4);
    assert_eq!(s.remove(4), Err(CellError::RemoveSolvedDigit));
    assert_eq!(s, Cell::Solved(4));
}

#[test]
fn test_solved_cell_remove_noop() {
    let mut s = Cell::Solved(4);
    assert_eq!(s.remove(7), Ok(()));
    assert_eq!(s, Cell::Solved(4));
}

#[test]
fn test_parse_length_error() {
    assert!(Board::from_str("123").is_err());
    let long: String = "1".repeat(82);
    assert!(Board::from_str(&long).is_err());
    let exact: String = ".".repeat(81);
    assert!(Board::from_str(&exact).is_ok());
}

#[test]
fn test_parse_zero_and_dot_are_open() {
    let zeros: String = "0".repeat(81);
    let b = Board::from_str(&zeros).unwrap();
    for cell in b.cells {
        assert_eq!(cell, Cell::new());
    }
    let mut other = String::from("x0.?-");
    other.push_str(&" ".repeat(76));
    let b2 = Board::from_str(&other).unwrap();
    for cell in b2.cells {
        assert_eq!(cell, Cell::new());
    }
}

#[test]
fn test_get_cells() {
    let b = Board::from_str(
        "123456789456789123789123456234567891567891234891234567345678912678912345912345678",
    )
    .unwrap();
    let group = vec![0usize, 9, 18];
    let cals = b.get_cells(&group);
    assert_eq!(cals.len(), 3);
    assert_eq!(cals[0].cell, Cell::Solved(1));
    assert_eq!(cals[0].board_idx, Some(0));
    assert_eq!(cals[0].group_idx, Some(0));
    assert_eq!(cals[1].cell, Cell::Solved(4));
    assert_eq!(cals[1].board_idx, Some(9));
    assert_eq!(cals[1].group_idx, Some(1));
    assert_eq!(cals[2].cell, Cell::Solved(7));
    assert_eq!(cals[2].board_idx, Some(18));
    assert_eq!(cals[2].group_idx, Some(2));
}

#[test]
fn test_all_groups_shape() {
    let groups = Board::all_groups();
    assert_eq!(groups.len(), 27);
    assert_eq!(groups[0], vec![0, 1, 2, 3, 4, 5, 6, 7, 8]);
    assert_eq!(groups[9], vec![0, 9, 18, 27, 36, 45, 54, 63, 72]);
    assert_eq!(groups[18], vec![0, 1, 2, 9, 10, 11, 18, 19, 20]);
    assert_eq!(groups[26], vec![60, 61, 62, 69, 70, 71, 78, 79, 80]);
}

#[test]
fn test_strategy_names() {
    let strategies = get_strategies();
    assert_eq!(strategies.len(), 2);
    assert_eq!(strategies[0].name(), "RemoveSolvedFromNeighbors");
    assert_eq!(strategies[1].name(), "NakedPair");
}

#[test]
fn test_elimination_safe_checker() {
    let good = Board::from_str(
        "5...27..9..41......1..5.3...92.6.8...5......66..7..29.8...7...2.......8...9..36..",
    )
    .unwrap();
    assert!(check_elimination_safe(&good));

    // Cell 0 is open, but its row claims 1 through 8 and its column 9:
    // no candidate survives, so one pass would strip it bare.
    let mut contradicted = String::from(".123456789");
    contradicted.push_str(&".".repeat(71));
    let bad = Board::from_str(&contradicted).unwrap();
    assert!(bad.valid());
    assert!(!check_elimination_safe(&bad));
}

#[test]
fn test_remove_solved_idempotent() {
    let b = Board::from_str(
        "5...27..9..41......1..5.3...92.6.8...5......66..7..29.8...7...2.......8...9..36..",
    )
    .unwrap();
    let rule = RemoveSolvedFromNeighbors::new();
    let once = rule.apply(&b);

    // The first pass solves no new cell here, so a second pass is a no-op.
    let solved = |board: &Board| {
        board.cells.iter().filter(|c| matches!(c, Cell::Solved(_))).count()
    };
    assert_eq!(solved(&b), solved(&once));

    let twice = rule.apply(&once);
    assert_eq!(twice, once);
}
