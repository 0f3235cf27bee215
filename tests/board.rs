use sudoku::board::{remove_invalid_values, values_from_slice, Board};
use sudoku::tile::Tile;

const PUZZLE: &str =
    "53..7....6..195....98....6.8...6...34..8.3..17...2...6.6....28....419..5....8..79";
const SOLVED: &str =
    "534678912672195348198342567859761423426853791713924856961537284287419635345286179";

/// The solved grid with its last four rows open: propagation alone cannot finish it.
const OPEN_ROWS: &str =
    "53467891267219534819834256785976142342685379.....................................";
/// The solved grid with only its first two rows given.
const FEW: &str =
    "534678912672195348...............................................................";

fn single(v: u16) -> Tile {
    let mut t = Tile::new();
    t.insert(v);
    t
}

fn digits_of(board: &Board) -> String {
    let mut out = String::new();
    for r in 0..9 {
        for c in 0..9 {
            let cell = board.cell(r, c);
            assert_eq!(cell.len(), 1);
            out.push(char::from(b'0' + cell.get_single_value() as u8));
        }
    }
    out
}

fn assert_valid_solution(board: &Board, puzzle: &str) {
    let text = digits_of(board);
    let d: Vec<u8> = text.bytes().map(|b| b - b'0').collect();
    for i in 0..9 {
        let mut row = [false; 10];
        let mut col = [false; 10];
        let mut bx = [false; 10];
        for j in 0..9 {
            row[d[i * 9 + j] as usize] = true;
            col[d[j * 9 + i] as usize] = true;
            let r = (i / 3) * 3 + j / 3;
            let c = (i % 3) * 3 + j % 3;
            bx[d[r * 9 + c] as usize] = true;
        }
        for v in 1..10 {
            assert!(row[v] && col[v] && bx[v]);
        }
    }
    for (p, s) in puzzle.chars().zip(text.chars()) {
        if p != '.' {
            assert_eq!(p, s);
        }
    }
}

#[test]
fn parse_accepts_dots_and_digits() {
    let board = Board::new_from_string(".".repeat(81)).unwrap();
    for r in 0..9 {
        for c in 0..9 {
            assert_eq!(board.cell(r, c), Tile::new_full_set());
        }
    }
    let board = Board::new_from_string(PUZZLE.to_string()).unwrap();
    assert_eq!(board.cell(0, 0), single(5));
    assert_eq!(board.cell(0, 1), single(3));
    assert_eq!(board.cell(0, 2), Tile::new_full_set());
    assert_eq!(board.cell(8, 8), single(9));
}

#[test]
fn parse_rejects_wrong_length() {
    assert!(Board::new_from_string(".".repeat(80)).is_err());
    assert!(Board::new_from_string(".".repeat(82)).is_err());
    assert!(Board::new_from_string(String::new()).is_err());
}

#[test]
fn parse_rejects_other_characters() {
    for bad in ["0", "x", " ", "é"] {
        let text = format!("{}{}", bad, ".".repeat(80));
        assert!(Board::new_from_string(text).is_err(), "accepted {:?}", bad);
    }
}

#[test]
fn propagate_on_empty_grid_changes_nothing() {
    let mut board = Board::new_from_string(".".repeat(81)).unwrap();
    assert!(board.apply_constraints().is_ok());
    for r in 0..9 {
        for c in 0..9 {
            assert_eq!(board.cell(r, c).len(), 9);
        }
    }
}

#[test]
fn propagate_removes_peer_digits() {
    let mut board = Board::new_from_string(format!("5{}", ".".repeat(80))).unwrap();
    assert!(board.apply_constraints().is_ok());
    assert_eq!(board.cell(0, 0), single(5));
    assert!(!board.cell(0, 8).contains(5));
    assert!(!board.cell(8, 0).contains(5));
    assert!(!board.cell(2, 2).contains(5));
    assert!(board.cell(3, 3).contains(5));
    assert_eq!(board.cell(4, 4).len(), 9);
}

#[test]
fn propagate_is_idempotent_and_monotone() {
    let mut board = Board::new_from_string(PUZZLE.to_string()).unwrap();
    let before = board;
    assert!(board.apply_constraints().is_ok());
    for r in 0..9 {
        for c in 0..9 {
            assert!(board.cell(r, c).len() <= before.cell(r, c).len());
        }
    }
    let once = board;
    assert!(board.apply_constraints().is_ok());
    for r in 0..9 {
        for c in 0..9 {
            assert_eq!(board.cell(r, c), once.cell(r, c));
        }
    }
}

#[test]
fn propagate_leaves_distinct_singles_in_every_unit() {
    let mut board = Board::new_from_string(PUZZLE.to_string()).unwrap();
    assert!(board.apply_constraints().is_ok());
    for i in 0..9 {
        for a in 0..9 {
            for b in 0..9 {
                if a == b {
                    continue;
                }
                let pairs = [
                    (board.cell(i, a), board.cell(i, b)),
                    (board.cell(a, i), board.cell(b, i)),
                    (
                        board.cell((i / 3) * 3 + a / 3, (i % 3) * 3 + a % 3),
                        board.cell((i / 3) * 3 + b / 3, (i % 3) * 3 + b % 3),
                    ),
                ];
                for (x, y) in pairs {
                    if x.len() == 1 && y.len() == 1 {
                        assert_ne!(x, y);
                    }
                }
            }
        }
    }
}

#[test]
fn propagate_detects_repeated_clue_in_row() {
    let mut board = Board::new_from_string(format!("11{}", ".".repeat(79))).unwrap();
    assert!(board.apply_constraints().is_err());
}

#[test]
fn propagate_detects_repeated_clue_in_column_and_box() {
    let mut text = vec![b'.'; 81];
    text[0] = b'7';
    text[9 * 5] = b'7';
    let mut board = Board::new_from_string(String::from_utf8(text).unwrap()).unwrap();
    assert!(board.apply_constraints().is_err());

    let mut text = vec![b'.'; 81];
    text[0] = b'4';
    text[10] = b'4';
    let mut board = Board::new_from_string(String::from_utf8(text).unwrap()).unwrap();
    assert!(board.apply_constraints().is_err());
}

#[test]
fn solve_finds_the_solution() {
    let board = Board::new_from_string(PUZZLE.to_string()).unwrap();
    let solution = board.solve().unwrap();
    assert_eq!(digits_of(&solution.board), SOLVED);
    assert_valid_solution(&solution.board, PUZZLE);
    assert!(solution.rejected_attempts <= solution.values_tried);
}

#[test]
fn solve_is_deterministic() {
    let first = Board::new_from_string(PUZZLE.to_string()).unwrap().solve().unwrap();
    let second = Board::new_from_string(PUZZLE.to_string()).unwrap().solve().unwrap();
    assert_eq!(digits_of(&first.board), digits_of(&second.board));
    assert_eq!(first.values_tried, second.values_tried);
    assert_eq!(first.rejected_attempts, second.rejected_attempts);

    let a = Board::new_from_string(OPEN_ROWS.to_string()).unwrap().solve().unwrap();
    let b = Board::new_from_string(OPEN_ROWS.to_string()).unwrap().solve().unwrap();
    assert_eq!(digits_of(&a.board), digits_of(&b.board));
    assert_eq!(a.values_tried, b.values_tried);
    assert_eq!(a.rejected_attempts, b.rejected_attempts);
}

#[test]
fn solve_searches_when_propagation_stalls() {
    let board = Board::new_from_string(OPEN_ROWS.to_string()).unwrap();
    let solution = board.solve().unwrap();
    assert!(solution.values_tried > 0);
    assert!(solution.rejected_attempts <= solution.values_tried);
    assert_valid_solution(&solution.board, OPEN_ROWS);
}

#[test]
fn solve_searches_from_few_clues() {
    let board = Board::new_from_string(FEW.to_string()).unwrap();
    let solution = board.solve().unwrap();
    assert!(solution.values_tried > 0);
    assert_valid_solution(&solution.board, FEW);
}

#[test]
fn solve_by_propagation_alone() {
    let mut text = SOLVED.to_string();
    text.replace_range(40..41, ".");
    let mut board = Board::new_from_string(text.clone()).unwrap();
    assert!(board.apply_constraints().is_ok());
    let solution = board.solve().unwrap();
    assert_eq!(solution.rejected_attempts, 0);
    assert_eq!(solution.values_tried, 0);
    assert_eq!(digits_of(&solution.board), SOLVED);
}

#[test]
fn solve_tries_candidates_of_an_unpropagated_grid() {
    let mut text = SOLVED.to_string();
    text.replace_range(40..41, ".");
    let solution = Board::new_from_string(text).unwrap().solve().unwrap();
    // the cell holds 5: 1 to 4 are tried and rejected first
    assert_eq!(solution.values_tried, 5);
    assert_eq!(solution.rejected_attempts, 4);
    assert_eq!(digits_of(&solution.board), SOLVED);
}

#[test]
fn solve_complete_grid_tries_nothing() {
    let board = Board::new_from_string(SOLVED.to_string()).unwrap();
    let solution = board.solve().unwrap();
    assert_eq!(solution.values_tried, 0);
    assert_eq!(solution.rejected_attempts, 0);
    assert_eq!(digits_of(&solution.board), SOLVED);
}

#[test]
fn solve_rejects_repeated_clue() {
    let text = format!("5...5....{}", ".".repeat(72));
    let board = Board::new_from_string(text).unwrap();
    assert!(board.solve().is_err());
}

#[test]
fn solve_rejects_complete_grid_with_repeat() {
    let mut text = SOLVED.to_string();
    // swap two digits of the first row so that columns repeat
    text.replace_range(0..2, "35");
    let board = Board::new_from_string(text).unwrap();
    assert!(board.solve().is_err());
}

#[test]
fn solve_rejects_puzzle_without_completion() {
    // Row 0 leaves only 9 for its last cell, and column 8 already holds 9.
    let mut text = vec![b'.'; 81];
    text[..8].copy_from_slice(b"12345678");
    text[9 * 4 + 8] = b'9';
    let board = Board::new_from_string(String::from_utf8(text).unwrap()).unwrap();
    assert!(board.solve().is_err());
}

#[test]
fn values_from_slice_collects_determined_digits() {
    let tiles = vec![single(4), Tile::new_full_set(), single(2), Tile::new(), single(4)];
    assert_eq!(values_from_slice(&tiles), vec![4, 2, 4]);
}

#[test]
fn remove_invalid_values_prunes_open_cells() {
    let mut two = Tile::new();
    two.insert(3);
    two.insert(6);
    let mut tiles = vec![single(3), Tile::new_full_set(), two];
    assert!(remove_invalid_values(&mut tiles, &vec![3]).is_ok());
    assert_eq!(tiles[0], single(3));
    assert_eq!(tiles[1].values(), vec![1, 2, 4, 5, 6, 7, 8, 9]);
    assert_eq!(tiles[2], single(6));

    let mut tiles = vec![two, Tile::new_full_set()];
    assert!(remove_invalid_values(&mut tiles, &vec![3, 6]).is_err());
}

#[test]
fn remove_invalid_values_fails_only_when_a_removal_empties_a_set() {
    let mut tiles = vec![Tile::new(), Tile::new_full_set()];
    assert!(remove_invalid_values(&mut tiles, &vec![]).is_ok());
    assert_eq!(tiles[0], Tile::new());
    assert_eq!(tiles[1], Tile::new_full_set());

    let mut tiles = vec![Tile::new()];
    assert!(remove_invalid_values(&mut tiles, &vec![5]).is_err());
}

#[test]
fn remove_invalid_values_stops_at_the_emptied_set() {
    let mut two = Tile::new();
    two.insert(3);
    two.insert(6);
    let mut tiles = vec![Tile::new_full_set(), two, Tile::new_full_set()];
    assert!(remove_invalid_values(&mut tiles, &vec![3, 6]).is_err());
    assert_eq!(tiles[0].values(), vec![1, 2, 4, 5, 7, 8, 9]);
    assert_eq!(tiles[1], Tile::new());
    assert_eq!(tiles[2], Tile::new_full_set());
}

#[test]
fn solve_fills_single_open_corner() {
    let text =
        ".23456789456789123789123456234567891567891234891234567345678912678912345912345678";
    let full =
        "123456789456789123789123456234567891567891234891234567345678912678912345912345678";
    let solution = Board::new_from_string(text.to_string()).unwrap().solve().unwrap();
    assert_eq!(solution.rejected_attempts, 0);
    assert_eq!(solution.values_tried, 1);
    assert_eq!(digits_of(&solution.board), full);
}
