use minesweeper::cell::Cell;
use minesweeper::config::BoardInfo;
use minesweeper::game::{Command, Minesweeper};

fn board(size: usize, mines: usize) -> BoardInfo {
    BoardInfo {
        board_size: size,
        num_mines: mines,
    }
}

#[test]
fn new_board_is_pristine() {
    let game = Minesweeper::new(board(3, 1));
    assert_eq!(game.board_size(), 3);
    assert_eq!(game.num_mines(), 1);
    assert!(!game.mines_placed());
    assert!(!game.is_game_over());
    assert_eq!(game.flag_count(), 0);
    assert!(!game.check_win());
    for r in 0..3 {
        for c in 0..3 {
            assert_eq!(game.get_cell(r, c), Cell::Undiscovered);
            assert_eq!(game.cell_symbol(r, c), '.');
            assert!(!game.is_revealed(r, c));
        }
    }
}

#[test]
fn reveal_cascade_three_by_three() {
    // Mine at (2,2): revealing (0,0) floods everything except the mine.
    let mines = vec![(2usize, 2usize)];
    let mut game = Minesweeper::new_with_mines(board(3, 1), &mines);
    game.reveal_cell(0, 0);
    assert_eq!(game.get_cell(0, 0), Cell::Empty);
    assert_eq!(game.get_cell(0, 1), Cell::Empty);
    assert_eq!(game.get_cell(0, 2), Cell::Empty);
    assert_eq!(game.get_cell(1, 0), Cell::Empty);
    assert_eq!(game.get_cell(2, 0), Cell::Empty);
    assert_eq!(game.get_cell(1, 1), Cell::Number(1));
    assert_eq!(game.get_cell(1, 2), Cell::Number(1));
    assert_eq!(game.get_cell(2, 1), Cell::Number(1));
    // The mine stays covered and hidden until the round ends.
    assert!(!game.is_revealed(2, 2));
    assert_eq!(game.cell_symbol(2, 2), '.');
    assert!(!game.is_game_over());
    assert!(game.check_win());
}

#[test]
fn reveal_is_idempotent() {
    let mines = vec![(2usize, 2usize)];
    let mut game = Minesweeper::new_with_mines(board(3, 1), &mines);
    game.reveal_cell(1, 1);
    let snapshot: Vec<Cell> = (0..3)
        .flat_map(|r| (0..3).map(move |c| (r, c)))
        .map(|(r, c)| game.get_cell(r, c))
        .collect();
    let flags = game.flag_count();
    let over = game.is_game_over();
    game.reveal_cell(1, 1);
    let after: Vec<Cell> = (0..3)
        .flat_map(|r| (0..3).map(move |c| (r, c)))
        .map(|(r, c)| game.get_cell(r, c))
        .collect();
    assert_eq!(snapshot, after);
    assert_eq!(game.flag_count(), flags);
    assert_eq!(game.is_game_over(), over);
}

#[test]
fn reveal_out_of_bounds_is_noop() {
    let mines = vec![(2usize, 2usize)];
    let mut game = Minesweeper::new_with_mines(board(3, 1), &mines);
    game.reveal_cell(3, 0);
    game.reveal_cell(0, 17);
    for r in 0..3 {
        for c in 0..3 {
            assert!(!game.is_revealed(r, c));
        }
    }
    assert!(!game.is_game_over());
}

#[test]
fn win_on_two_by_two() {
    // One mine at a fixed position; revealing the three safe cells wins.
    let mines = vec![(1usize, 1usize)];
    let mut game = Minesweeper::new_with_mines(board(2, 1), &mines);
    game.reveal_cell(0, 0);
    game.reveal_cell(0, 1);
    assert!(!game.check_win());
    game.reveal_cell(1, 0);
    assert_eq!(game.get_cell(0, 0), Cell::Number(1));
    assert_eq!(game.get_cell(0, 1), Cell::Number(1));
    assert_eq!(game.get_cell(1, 0), Cell::Number(1));
    assert!(game.check_win());
    assert!(!game.is_game_over());
}

#[test]
fn loss_on_two_by_two() {
    // Revealing the mine instead loses and is not a win.
    let mines = vec![(1usize, 1usize)];
    let mut game = Minesweeper::new_with_mines(board(2, 1), &mines);
    game.reveal_cell(1, 1);
    assert!(game.is_game_over());
    assert!(!game.check_win());
    // Once over, the mine becomes visible.
    assert_eq!(game.cell_symbol(1, 1), 'X');
}

#[test]
fn flood_fill_stops_at_number_boundary() {
    // A wall of mines across row 2 separates the board: revealing (0,0)
    // uncovers rows 0 and 1 only.
    let mines = vec![
        (2usize, 0usize),
        (2usize, 1usize),
        (2usize, 2usize),
        (2usize, 3usize),
        (2usize, 4usize),
    ];
    let mut game = Minesweeper::new_with_mines(board(5, 5), &mines);
    game.reveal_cell(0, 0);
    for c in 0..5 {
        assert_eq!(game.get_cell(0, c), Cell::Empty);
        assert!(game.is_revealed(1, c));
        assert!(!game.is_revealed(2, c));
        assert!(!game.is_revealed(3, c));
        assert!(!game.is_revealed(4, c));
    }
    assert_eq!(game.get_cell(1, 0), Cell::Number(2));
    assert_eq!(game.get_cell(1, 1), Cell::Number(3));
    assert_eq!(game.get_cell(1, 2), Cell::Number(3));
    assert_eq!(game.get_cell(1, 3), Cell::Number(3));
    assert_eq!(game.get_cell(1, 4), Cell::Number(2));
    assert!(!game.is_game_over());
}

#[test]
fn first_reveal_places_mines_safely() {
    // The first reveal command triggers placement: the full mine count is
    // on the board and the anchor's neighborhood is mine-free.
    let mut game = Minesweeper::new(board(5, 3));
    game.apply_command(Command::Reveal(2, 2));
    assert!(game.mines_placed());
    let mut count = 0;
    for r in 0..5 {
        for c in 0..5 {
            if game.is_mine(r, c) {
                count += 1;
                let dr = if r >= 2 { r - 2 } else { 2 - r };
                let dc = if c >= 2 { c - 2 } else { 2 - c };
                assert!(dr > 1 || dc > 1, "mine adjacent to the first move");
            }
        }
    }
    assert_eq!(count, 3);
    // The whole neighborhood of the first move is uncovered.
    for r in 1..4 {
        for c in 1..4 {
            assert!(game.is_revealed(r, c));
        }
    }
    assert!(!game.is_game_over());
    assert_eq!(game.take_message(), None);
}

#[test]
fn first_reveal_on_corner_of_full_board() {
    // Eight mines on a three-by-three board: every cell but the anchor
    // must carry a mine, so the neighborhood constraint is relaxed.
    let mut game = Minesweeper::new(board(3, 8));
    game.apply_command(Command::Reveal(1, 1));
    assert!(game.mines_placed());
    let mut count = 0;
    for r in 0..3 {
        for c in 0..3 {
            if game.is_mine(r, c) {
                count += 1;
            }
        }
    }
    assert_eq!(count, 8);
    assert!(!game.is_mine(1, 1));
}

#[test]
fn count_mines_around_is_exact() {
    let mines = vec![(0usize, 0usize), (0usize, 1usize), (2usize, 2usize)];
    let game = Minesweeper::new_with_mines(board(3, 3), &mines);
    assert_eq!(game.count_mines_around(1, 1), 3);
    assert_eq!(game.count_mines_around(1, 0), 2);
    assert_eq!(game.count_mines_around(2, 0), 0);
    assert_eq!(game.count_mines_around(1, 2), 2);
    // The center of the neighborhood counts too.
    assert_eq!(game.count_mines_around(0, 0), 2);
}

#[test]
fn zero_mines_floods_whole_board() {
    let mines: Vec<(usize, usize)> = Vec::new();
    let mut game = Minesweeper::new_with_mines(board(3, 0), &mines);
    game.reveal_cell(1, 1);
    for r in 0..3 {
        for c in 0..3 {
            assert_eq!(game.get_cell(r, c), Cell::Empty);
            assert_eq!(game.cell_symbol(r, c), '*');
        }
    }
    assert!(game.check_win());
}

#[test]
fn smallest_board_first_move_wins() {
    let mut game = Minesweeper::new(board(1, 0));
    game.apply_command(Command::Reveal(0, 0));
    assert!(game.mines_placed());
    assert_eq!(game.get_cell(0, 0), Cell::Empty);
    assert!(game.check_win());
    assert!(!game.is_game_over());
}

#[test]
fn placement_runs_only_once() {
    let mut game = Minesweeper::new(board(4, 2));
    game.initialize_game_on_first_play(1, 1);
    let mines_before: Vec<bool> = (0..4)
        .flat_map(|r| (0..4).map(move |c| (r, c)))
        .map(|(r, c)| game.is_mine(r, c))
        .collect();
    game.initialize_game_on_first_play(3, 3);
    let mines_after: Vec<bool> = (0..4)
        .flat_map(|r| (0..4).map(move |c| (r, c)))
        .map(|(r, c)| game.is_mine(r, c))
        .collect();
    assert_eq!(mines_before, mines_after);
}

#[test]
fn win_with_flagged_mine() {
    // A flagged mine counts as acted-upon but not towards the win total.
    let mines = vec![(1usize, 1usize)];
    let mut game = Minesweeper::new_with_mines(board(2, 1), &mines);
    game.mark_mine(1, 1);
    game.reveal_cell(0, 0);
    game.reveal_cell(0, 1);
    game.reveal_cell(1, 0);
    assert!(game.check_win());
    assert!(!game.is_game_over());
}
