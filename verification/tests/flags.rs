use minesweeper::cell::{Cell, GameMessage};
use minesweeper::config::BoardInfo;
use minesweeper::game::{Command, Minesweeper};

fn board(size: usize, mines: usize) -> BoardInfo {
    BoardInfo {
        board_size: size,
        num_mines: mines,
    }
}

fn snapshot(game: &Minesweeper, size: usize) -> Vec<Cell> {
    let mut cells = Vec::new();
    for r in 0..size {
        for c in 0..size {
            cells.push(game.get_cell(r, c));
        }
    }
    cells
}

#[test]
fn flag_then_unflag_restores_safe_cell() {
    let mines = vec![(1usize, 1usize)];
    let mut game = Minesweeper::new_with_mines(board(3, 1), &mines);
    game.reveal_cell(0, 0);
    let before = snapshot(&game, 3);
    let flags_before = game.flag_count();
    game.mark_mine(2, 2);
    assert_eq!(game.get_cell(2, 2), Cell::Mark);
    assert_eq!(game.cell_symbol(2, 2), '!');
    assert_eq!(game.flag_count(), flags_before + 1);
    assert!(game.is_revealed(2, 2));
    game.mark_mine(2, 2);
    assert_eq!(snapshot(&game, 3), before);
    assert_eq!(game.flag_count(), flags_before);
    assert!(!game.is_revealed(2, 2));
}

#[test]
fn flag_then_unflag_restores_mine_cell() {
    let mines = vec![(1usize, 1usize)];
    let mut game = Minesweeper::new_with_mines(board(3, 1), &mines);
    game.reveal_cell(0, 0);
    let before = snapshot(&game, 3);
    game.mark_mine(1, 1);
    assert_eq!(game.get_cell(1, 1), Cell::Mark);
    game.mark_mine(1, 1);
    assert_eq!(snapshot(&game, 3), before);
    assert_eq!(game.get_cell(1, 1), Cell::Mine);
    assert_eq!(game.cell_symbol(1, 1), '.');
    assert_eq!(game.flag_count(), 0);
}

#[test]
fn flag_count_never_exceeds_mine_count() {
    let mines = vec![(1usize, 1usize)];
    let mut game = Minesweeper::new_with_mines(board(2, 1), &mines);
    game.mark_mine(0, 0);
    assert_eq!(game.flag_count(), 1);
    game.mark_mine(0, 1);
    assert_eq!(game.flag_count(), 1);
    assert_eq!(game.get_cell(0, 1), Cell::Undiscovered);
    assert_eq!(game.take_message(), Some(GameMessage::FlagLimitReached));
    game.mark_mine(0, 0);
    assert_eq!(game.flag_count(), 0);
    game.mark_mine(1, 1);
    assert_eq!(game.flag_count(), 1);
}

#[test]
fn flag_on_revealed_cell_is_rejected() {
    let mines = vec![(2usize, 2usize)];
    let mut game = Minesweeper::new_with_mines(board(3, 1), &mines);
    game.reveal_cell(1, 1);
    let before = snapshot(&game, 3);
    game.mark_mine(1, 1);
    assert_eq!(snapshot(&game, 3), before);
    assert_eq!(game.flag_count(), 0);
    assert_eq!(game.take_message(), Some(GameMessage::CellNotFlaggable));
}

#[test]
fn flag_out_of_bounds_is_rejected() {
    let mines = vec![(0usize, 0usize)];
    let mut game = Minesweeper::new_with_mines(board(2, 1), &mines);
    game.mark_mine(5, 0);
    assert_eq!(game.take_message(), Some(GameMessage::OutOfBounds));
    assert_eq!(game.flag_count(), 0);
}

#[test]
fn flag_before_first_reveal_is_rejected() {
    let mut game = Minesweeper::new(board(3, 1));
    game.mark_mine(2, 2);
    assert_eq!(game.take_message(), Some(GameMessage::PrematureFlag));
    assert_eq!(game.flag_count(), 0);
    assert_eq!(game.get_cell(2, 2), Cell::Undiscovered);
}

#[test]
fn take_message_clears_after_one_read() {
    let mut game = Minesweeper::new(board(3, 1));
    game.mark_mine(0, 0);
    assert_eq!(game.take_message(), Some(GameMessage::PrematureFlag));
    assert_eq!(game.take_message(), None);
}

#[test]
fn reveal_command_on_revealed_cell_reports() {
    let mines = vec![(2usize, 2usize)];
    let mut game = Minesweeper::new_with_mines(board(3, 1), &mines);
    game.apply_command(Command::Reveal(1, 1));
    assert_eq!(game.take_message(), None);
    game.apply_command(Command::Reveal(1, 1));
    assert_eq!(game.take_message(), Some(GameMessage::AlreadyRevealed));
}

#[test]
fn reveal_command_out_of_bounds_reports() {
    let mut game = Minesweeper::new(board(3, 1));
    game.apply_command(Command::Reveal(7, 7));
    assert_eq!(game.take_message(), Some(GameMessage::OutOfBounds));
    assert!(!game.mines_placed());
}

#[test]
fn toggle_command_runs_state_machine() {
    let mines = vec![(0usize, 0usize)];
    let mut game = Minesweeper::new_with_mines(board(2, 1), &mines);
    game.apply_command(Command::ToggleFlag(0, 0));
    assert_eq!(game.get_cell(0, 0), Cell::Mark);
    assert_eq!(game.flag_count(), 1);
    game.apply_command(Command::ToggleFlag(0, 0));
    assert_eq!(game.get_cell(0, 0), Cell::Mine);
    assert_eq!(game.flag_count(), 0);
}
