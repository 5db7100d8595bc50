use minesweeper::config::{BoardInfo, Config, GameMode};

fn sample_config() -> Config {
    Config {
        game_modes: vec![
            GameMode {
                name: "Beginner".to_string(),
                board_size: 8,
                num_mines: 10,
                index: 2,
            },
            GameMode {
                name: "Intermediate".to_string(),
                board_size: 16,
                num_mines: 40,
                index: 3,
            },
            GameMode {
                name: "Expert".to_string(),
                board_size: 24,
                num_mines: 99,
                index: 4,
            },
        ],
    }
}

#[test]
fn max_index_of_presets() {
    let config = sample_config();
    assert_eq!(config.max_index(), 4);
    let empty = Config { game_modes: Vec::new() };
    assert_eq!(empty.max_index(), 0);
}

#[test]
fn find_mode_by_index() {
    let config = sample_config();
    let mode = config.find_mode(3).expect("preset 3 exists");
    assert_eq!(mode.board_size, 16);
    assert_eq!(mode.num_mines, 40);
    assert!(config.find_mode(7).is_none());
}

#[test]
fn board_info_validity() {
    assert!(BoardInfo { board_size: 8, num_mines: 10 }.is_valid());
    assert!(BoardInfo { board_size: 1, num_mines: 0 }.is_valid());
    assert!(!BoardInfo { board_size: 0, num_mines: 0 }.is_valid());
    assert!(!BoardInfo { board_size: 3, num_mines: 9 }.is_valid());
    assert!(BoardInfo { board_size: 3, num_mines: 8 }.is_valid());
    assert!(!BoardInfo { board_size: 50000, num_mines: 1 }.is_valid());
}
