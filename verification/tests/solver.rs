use sudoku::board::{Board, InitError};
use sudoku::cell::Cell;

fn blanks(n: usize) -> String {
    let mut parts: Vec<&str> = Vec::new();
    let mut i = 0;
    while i < n {
        parts.push("-");
        i += 1;
    }
    parts.join(",")
}

const SAMPLE: &str = "6,-,5,-,-,-,-,2,-,-,-,7,9,6,4,-,-,5,-,9,1,-,2,-,-,-,-,-,8,-,5,9,6,-,-,3,-,3,-,8,-,1,-,5,-,4,-,-,3,7,2,-,6,-,-,-,-,-,8,-,5,9,-,5,-,-,6,1,9,8,-,-,-,1,-,-,-,-,7,-,6";

fn row_col_block_complete(board: &Board) {
    // every row, column and block holds each of 1..=9 exactly once
    for unit in 0..9 {
        let mut row_seen = [false; 10];
        let mut col_seen = [false; 10];
        let mut block_seen = [false; 10];
        for m in 0..9 {
            let r = board.cells[unit * 9 + m].options[0] as usize;
            assert!((1..=9).contains(&r) && !row_seen[r]);
            row_seen[r] = true;
            let c = board.cells[m * 9 + unit].options[0] as usize;
            assert!((1..=9).contains(&c) && !col_seen[c]);
            col_seen[c] = true;
            let idx = (unit / 3 * 3 + m / 3) * 9 + (unit % 3 * 3 + m % 3);
            let b = board.cells[idx].options[0] as usize;
            assert!((1..=9).contains(&b) && !block_seen[b]);
            block_seen[b] = true;
        }
    }
}

#[test]
fn new_board_is_blank() {
    let board = Board::new();
    assert_eq!(board.solved, 0);
    assert_eq!(board.cells.len(), 81);
    for i in 0..81 {
        let c = &board.cells[i];
        assert_eq!(c.row, i / 9);
        assert_eq!(c.col, i % 9);
        assert_eq!(c.options, vec![1, 2, 3, 4, 5, 6, 7, 8, 9]);
        assert!(!c.solved);
    }
}

#[test]
fn default_cell_has_all_candidates() {
    let c = Cell::default();
    assert_eq!(c.row, 0);
    assert_eq!(c.col, 0);
    assert_eq!(c.options, vec![1, 2, 3, 4, 5, 6, 7, 8, 9]);
    assert!(!c.solved);
}

#[test]
fn initialize_counts_givens() {
    let mut board = Board::new();
    assert_eq!(board.initialize(SAMPLE), Ok(()));
    assert_eq!(board.solved, 36);
    assert_eq!(board.cells[0].options, vec![6]);
    assert!(board.cells[0].solved);
    assert_eq!(board.cells[1].options, vec![1, 2, 3, 4, 5, 6, 7, 8, 9]);
    assert!(!board.cells[1].solved);
}

#[test]
fn initialize_rejects_bad_token() {
    let mut board = Board::new();
    let mut spec = blanks(81);
    spec.replace_range(4..5, "x");
    assert_eq!(board.initialize(&spec), Err(InitError::MalformedToken));
    // the board is left untouched
    assert_eq!(board, Board::new());
}

#[test]
fn initialize_rejects_zero_token() {
    let mut board = Board::new();
    let mut spec = blanks(81);
    spec.replace_range(0..1, "0");
    assert_eq!(board.initialize(&spec), Err(InitError::MalformedToken));
}

#[test]
fn initialize_rejects_wide_token() {
    let mut board = Board::new();
    let spec = format!("12,{}", blanks(80));
    assert_eq!(board.initialize(&spec), Err(InitError::MalformedToken));
}

#[test]
fn initialize_rejects_empty_token() {
    let mut board = Board::new();
    let spec = format!("5,,{}", blanks(79));
    assert_eq!(board.initialize(&spec), Err(InitError::MalformedToken));
}

#[test]
fn initialize_rejects_empty_input() {
    let mut board = Board::new();
    assert_eq!(board.initialize(""), Err(InitError::MalformedToken));
}

#[test]
fn initialize_rejects_non_ascii_token() {
    let mut board = Board::new();
    let spec = format!("é,{}", blanks(80));
    assert_eq!(board.initialize(&spec), Err(InitError::MalformedToken));
}

#[test]
fn bad_token_past_the_81st_is_a_count_error() {
    // the scan stops at the 81st token; later tokens are never read
    let mut board = Board::new();
    let spec = format!("{},x", blanks(81));
    assert_eq!(board.initialize(&spec), Err(InitError::WrongCount));
}

#[test]
fn initialize_rejects_too_few_tokens() {
    let mut board = Board::new();
    assert_eq!(board.initialize(&blanks(80)), Err(InitError::WrongCount));
    assert_eq!(board, Board::new());
}

#[test]
fn initialize_rejects_too_many_tokens() {
    let mut board = Board::new();
    assert_eq!(board.initialize(&blanks(82)), Err(InitError::WrongCount));
}

#[test]
fn all_unknown_board_is_a_fixpoint() {
    // a spec of 81 "-" tokens: nothing is solved and a pass changes nothing
    let mut board = Board::new();
    assert_eq!(board.initialize(&blanks(81)), Ok(()));
    assert_eq!(board.solved, 0);
    for i in 0..81 {
        assert_eq!(board.cells[i].options.len(), 9);
        assert!(!board.cells[i].solved);
    }
    let before = board.clone();
    board.eliminate_conflicts();
    assert_eq!(board, before);
    assert_eq!(board.solved, 0);
}

#[test]
fn nearly_full_row_resolves_in_one_pass() {
    // "1,2,3,4,5,6,7,8,-" as the first row, everything else unknown
    let spec = format!("1,2,3,4,5,6,7,8,-,{}", blanks(72));
    let mut board = Board::new();
    assert_eq!(board.initialize(&spec), Ok(()));
    assert_eq!(board.solved, 8);
    board.eliminate_conflicts();
    assert_eq!(board.solved, 9);
    assert!(board.cells[8].solved);
    assert_eq!(board.cells[8].options, vec![9]);
}

#[test]
fn candidates_only_shrink_and_count_never_drops() {
    let mut board = Board::new();
    assert_eq!(board.initialize(SAMPLE), Ok(()));
    for _ in 0..10 {
        let before = board.clone();
        board.eliminate_conflicts();
        assert!(board.solved >= before.solved);
        for i in 0..81 {
            for v in &board.cells[i].options {
                assert!(before.cells[i].options.contains(v));
            }
        }
    }
}

#[test]
fn pass_at_fixpoint_changes_nothing() {
    let mut board = Board::new();
    assert_eq!(board.initialize(SAMPLE), Ok(()));
    loop {
        let before = board.clone();
        board.eliminate_conflicts();
        if board == before {
            break;
        }
    }
    let fixed = board.clone();
    board.eliminate_conflicts();
    assert_eq!(board, fixed);
}

#[test]
fn givens_are_preserved() {
    let mut board = Board::new();
    assert_eq!(board.initialize(SAMPLE), Ok(()));
    let initial = board.clone();
    for _ in 0..10 {
        board.eliminate_conflicts();
    }
    for i in 0..81 {
        if initial.cells[i].solved {
            assert_eq!(board.cells[i], initial.cells[i]);
        }
    }
}

#[test]
fn no_solved_peers_agree_after_any_pass() {
    let mut board = Board::new();
    assert_eq!(board.initialize(SAMPLE), Ok(()));
    for _ in 0..10 {
        board.eliminate_conflicts();
        for i in 0..81 {
            for k in 0..81 {
                if i != k && board.cells[i].solved && board.cells[k].solved {
                    let peers = i / 9 == k / 9 || i % 9 == k % 9 || (i / 9 / 3 == k / 9 / 3
                        && i % 9 / 3 == k % 9 / 3);
                    if peers {
                        assert_ne!(board.cells[i].options[0], board.cells[k].options[0]);
                    }
                }
            }
        }
    }
}

#[test]
fn sample_puzzle_solves_by_elimination() {
    let mut board = Board::new();
    assert_eq!(board.initialize(SAMPLE), Ok(()));
    while board.solved < 81 {
        let before = board.solved;
        board.eliminate_conflicts();
        assert!(board.solved > before, "the pass stalled before the board was full");
    }
    assert_eq!(board.solved, 81);
    row_col_block_complete(&board);
}

#[test]
fn check_remove_option_drops_peer_value() {
    let mut cell = Cell::default();
    cell.row = 0;
    cell.col = 0;
    let peer = Cell { row: 0, col: 5, options: vec![5], solved: true };
    let solved = cell.check_remove_option(&peer);
    assert!(!solved);
    assert_eq!(cell.options, vec![1, 2, 3, 4, 6, 7, 8, 9]);
}

#[test]
fn check_remove_option_ignores_same_position() {
    let mut cell = Cell::default();
    let same = Cell { row: 0, col: 0, options: vec![5], solved: true };
    let solved = cell.check_remove_option(&same);
    assert!(!solved);
    assert_eq!(cell.options, vec![1, 2, 3, 4, 5, 6, 7, 8, 9]);
}

#[test]
fn check_remove_option_marks_last_candidate_solved() {
    let mut cell = Cell { row: 0, col: 0, options: vec![4, 7], solved: false };
    let peer = Cell { row: 0, col: 3, options: vec![4], solved: true };
    let solved = cell.check_remove_option(&peer);
    assert!(solved);
    assert!(cell.solved);
    assert_eq!(cell.options, vec![7]);
}

#[test]
fn unsolved_peer_removes_nothing() {
    let mut cell = Cell { row: 0, col: 0, options: vec![4, 7], solved: false };
    let peer = Cell { row: 0, col: 3, options: vec![4, 5], solved: false };
    let solved = cell.check_remove_option(&peer);
    assert!(!solved);
    assert_eq!(cell.options, vec![4, 7]);
}

#[test]
fn render_blank_board() {
    let mut board = Board::new();
    assert_eq!(board.initialize(&blanks(81)), Ok(()));
    let blank_row = "   |   |   \n";
    let sep = "-----------\n";
    let expected = format!(
        "{r}{r}{r}{s}{r}{r}{r}{s}{r}{r}{r}",
        r = blank_row,
        s = sep
    );
    assert_eq!(board.render(), expected);
}

#[test]
fn render_shows_givens() {
    let spec = format!("1,2,3,4,5,6,7,8,-,{}", blanks(72));
    let mut board = Board::new();
    assert_eq!(board.initialize(&spec), Ok(()));
    let rendered = board.render();
    let first_line = rendered.lines().next().unwrap();
    assert_eq!(first_line, "123|456|78 ");
}

#[test]
fn cell_render_is_value_or_blank() {
    let solved = Cell { row: 0, col: 0, options: vec![8], solved: true };
    assert_eq!(solved.render(), "8");
    let open = Cell::default();
    assert_eq!(open.render(), " ");
}
