use minesweeper::board::Board;
use minesweeper::board_builder::BoardBuilder;
use minesweeper::cell::{Cell, VisibleCell};
use minesweeper::constants::{DEFAULT_BOARD_HEIGHT, DEFAULT_BOARD_MINES, DEFAULT_BOARD_WIDTH};
use minesweeper::memento::Caretaker;
use minesweeper::state::{FinishedState, State};

fn get_test_builder() -> BoardBuilder {
    BoardBuilder::new(3, 3, 2)
}

fn count_mines(board: &Board) -> usize {
    let mut n = 0;
    for y in 0..board.get_height() {
        for x in 0..board.get_width() {
            if board.get_cell(x, y) == Cell::Mine {
                n += 1;
            }
        }
    }
    n
}

#[test]
fn wins_game() {
    let mut board = get_test_builder().set_seed(1).build().unwrap();

    board.uncover_cell(0, 0);
    board.uncover_cell(2, 1);
    let state = board.get_state();
    assert_eq!(*state, State::Finished(FinishedState::Won));
}

#[test]
fn loses_game() {
    let mut board = get_test_builder().set_seed(2).build().unwrap();

    board.uncover_cell(0, 0);
    board.uncover_cell(1, 2);
    let state = board.get_state();
    assert_eq!(*state, State::Finished(FinishedState::Lost));
}

#[test]
fn restores_board_state() {
    let mut caretaker = Caretaker::new();
    let mut board = get_test_builder().set_seed(3).build().unwrap();
    caretaker.add_memento(board.save_memento());

    board.uncover_cell(0, 0);
    caretaker.add_memento(board.save_memento());

    board.uncover_cell(0, 2);
    let state = board.get_state();
    assert_eq!(*state, State::Finished(FinishedState::Lost));

    board.restore_from_memento(caretaker.get_last_memento().unwrap());

    let state = board.get_state();
    assert_eq!(*state, State::Playing);
}

#[test]
fn seeded_layout_places_mines_in_the_right_column() {
    let mut board = get_test_builder().set_seed(1).build().unwrap();
    board.uncover_cell(0, 0);
    assert_eq!(board.get_cell(2, 0), Cell::Mine);
    assert_eq!(board.get_cell(2, 2), Cell::Mine);
    assert_eq!(board.get_cell(2, 1), Cell::Clue(2));
    assert_eq!(board.get_cell(1, 1), Cell::Clue(2));
    assert_eq!(board.get_cell(0, 0), Cell::Empty);
    assert_eq!(board.get_visible_cell(1, 1), VisibleCell::Uncovered(Cell::Clue(2)));
    assert_eq!(board.get_visible_cell(2, 1), VisibleCell::Covered);
    assert_eq!(*board.get_state(), State::Playing);
}

#[test]
fn new_board_is_all_covered_and_new() {
    let board = Board::new(4, 5, 3);
    assert_eq!(*board.get_state(), State::New);
    assert_eq!(board.get_height(), 4);
    assert_eq!(board.get_width(), 5);
    assert_eq!(board.get_mines_number(), 3);
    for y in 0..4 {
        for x in 0..5 {
            assert_eq!(board.get_visible_cell(x, y), VisibleCell::Covered);
            assert_eq!(board.get_cell(x, y), Cell::Empty);
        }
    }
}

#[test]
fn built_board_is_fresh() {
    let board = BoardBuilder::new(DEFAULT_BOARD_HEIGHT, DEFAULT_BOARD_WIDTH, DEFAULT_BOARD_MINES)
        .build()
        .unwrap();
    assert_eq!(*board.get_state(), State::New);
    assert_eq!(board.get_mines_number(), 10);
    assert_eq!(board.get_visible_cell(8, 8), VisibleCell::Covered);
}

#[test]
fn too_many_mines_is_a_configuration_error() {
    let result = BoardBuilder::new(3, 3, 7).build();
    assert!(result.is_err());
    assert_eq!(
        result.err(),
        Some("Wrong amount of mines in comparison with width and height")
    );
}

#[test]
fn mine_count_at_the_limit_is_accepted() {
    assert!(BoardBuilder::new(3, 3, 6).build().is_ok());
    assert!(BoardBuilder::new(1, 2, 0).build().is_err());
    assert!(BoardBuilder::new(1, 3, 0).build().is_ok());
}

#[test]
fn first_reveal_keeps_the_safe_zone_free() {
    for seed in 0..20u64 {
        let mut board = BoardBuilder::new(6, 7, 15).set_seed(seed).build().unwrap();
        board.uncover_cell(3, 2);
        for y in 1..4u8 {
            for x in 2..5u8 {
                assert_ne!(board.get_cell(x, y), Cell::Mine);
            }
        }
        assert_eq!(count_mines(&board), 15);
    }
}

#[test]
fn first_reveal_on_a_full_board_places_what_fits() {
    // The centre click of a 3x3 board leaves no coordinate free for a mine.
    let mut board = BoardBuilder::new(3, 3, 6).set_seed(5).build().unwrap();
    board.uncover_cell(1, 1);
    assert_eq!(count_mines(&board), 0);
    assert_eq!(*board.get_state(), State::Finished(FinishedState::Won));
}

#[test]
fn corner_click_on_a_crowded_board_fills_every_other_cell() {
    let mut board = BoardBuilder::new(3, 3, 6).set_seed(9).build().unwrap();
    board.uncover_cell(0, 0);
    assert_eq!(count_mines(&board), 5);
    assert_eq!(board.get_cell(0, 0), Cell::Empty);
    assert_eq!(board.get_cell(1, 1), Cell::Clue(5));
    assert_eq!(board.get_cell(2, 2), Cell::Mine);
    assert_eq!(*board.get_state(), State::Finished(FinishedState::Won));
}

#[test]
fn clues_count_neighbouring_mines() {
    for seed in 0..10u64 {
        let mut board = BoardBuilder::new(5, 6, 8).set_seed(seed).build().unwrap();
        board.uncover_cell(0, 0);
        for y in 0..5i16 {
            for x in 0..6i16 {
                let cell = board.get_cell(x as u8, y as u8);
                if cell == Cell::Mine {
                    continue;
                }
                let mut n = 0u8;
                for dy in -1..=1i16 {
                    for dx in -1..=1i16 {
                        let (nx, ny) = (x + dx, y + dy);
                        if (dx, dy) != (0, 0) && nx >= 0 && nx < 6 && ny >= 0 && ny < 5 {
                            if board.get_cell(nx as u8, ny as u8) == Cell::Mine {
                                n += 1;
                            }
                        }
                    }
                }
                let expected = if n == 0 { Cell::Empty } else { Cell::Clue(n) };
                assert_eq!(cell, expected);
            }
        }
    }
}

#[test]
fn flood_fill_uncovers_region_and_border_but_no_mine() {
    for seed in 0..10u64 {
        let mut board = BoardBuilder::new(8, 8, 10).set_seed(seed).build().unwrap();
        board.uncover_cell(4, 4);
        for y in 0..8i16 {
            for x in 0..8i16 {
                let visible = board.get_visible_cell(x as u8, y as u8);
                if let VisibleCell::Uncovered(c) = visible {
                    assert_ne!(c, Cell::Mine);
                    assert_eq!(c, board.get_cell(x as u8, y as u8));
                }
                // Every uncovered empty cell has all its neighbours uncovered.
                if visible == VisibleCell::Uncovered(Cell::Empty) {
                    for dy in -1..=1i16 {
                        for dx in -1..=1i16 {
                            let (nx, ny) = (x + dx, y + dy);
                            if nx >= 0 && nx < 8 && ny >= 0 && ny < 8 {
                                assert!(matches!(
                                    board.get_visible_cell(nx as u8, ny as u8),
                                    VisibleCell::Uncovered(_)
                                ));
                            }
                        }
                    }
                }
            }
        }
    }
}

#[test]
fn revealing_a_mine_loses_and_freezes_the_board() {
    let mut board = get_test_builder().set_seed(1).build().unwrap();
    board.uncover_cell(0, 0);
    board.uncover_cell(2, 0);
    assert_eq!(*board.get_state(), State::Finished(FinishedState::Lost));
    assert_eq!(board.get_visible_cell(2, 0), VisibleCell::Uncovered(Cell::Mine));
    let before = board.get_visible_cell(2, 1);
    board.uncover_cell(2, 1);
    board.flag_cell(2, 2);
    assert_eq!(board.get_visible_cell(2, 1), before);
    assert_eq!(board.get_visible_cell(2, 2), VisibleCell::Covered);
    assert_eq!(board.get_mines_number(), 2);
    assert_eq!(*board.get_state(), State::Finished(FinishedState::Lost));
}

#[test]
fn flagged_safe_cell_blocks_the_win() {
    let mut board = get_test_builder().set_seed(1).build().unwrap();
    board.uncover_cell(0, 0);
    board.flag_cell(2, 1);
    assert_eq!(board.get_visible_cell(2, 1), VisibleCell::Flagged);
    assert_eq!(board.get_mines_number(), 1);
    // Revealing a flagged coordinate does nothing.
    board.uncover_cell(2, 1);
    assert_eq!(board.get_visible_cell(2, 1), VisibleCell::Flagged);
    assert_eq!(*board.get_state(), State::Playing);
    board.flag_cell(2, 1);
    board.uncover_cell(2, 1);
    assert_eq!(*board.get_state(), State::Finished(FinishedState::Won));
}

#[test]
fn flag_toggle_is_its_own_inverse() {
    let mut board = get_test_builder().set_seed(1).build().unwrap();
    board.uncover_cell(0, 0);
    board.flag_cell(2, 0);
    assert_eq!(board.get_visible_cell(2, 0), VisibleCell::Flagged);
    assert_eq!(board.get_mines_number(), 1);
    board.flag_cell(2, 0);
    assert_eq!(board.get_visible_cell(2, 0), VisibleCell::Covered);
    assert_eq!(board.get_mines_number(), 2);
    // An uncovered coordinate takes no flag.
    board.flag_cell(0, 0);
    assert_eq!(board.get_visible_cell(0, 0), VisibleCell::Uncovered(Cell::Empty));
    assert_eq!(board.get_mines_number(), 2);
}

#[test]
fn flag_budget_runs_out() {
    let mut board = get_test_builder().set_seed(1).build().unwrap();
    board.uncover_cell(0, 0);
    board.flag_cell(2, 0);
    board.flag_cell(2, 2);
    assert_eq!(board.get_mines_number(), 0);
    board.flag_cell(2, 1);
    assert_eq!(board.get_visible_cell(2, 1), VisibleCell::Covered);
    assert_eq!(board.get_mines_number(), 0);
}

#[test]
fn flagging_before_the_first_reveal_does_nothing() {
    let mut board = get_test_builder().build().unwrap();
    board.flag_cell(1, 1);
    assert_eq!(board.get_visible_cell(1, 1), VisibleCell::Covered);
    assert_eq!(board.get_mines_number(), 2);
}

#[test]
fn reset_returns_to_the_initial_state() {
    let mut board = get_test_builder().set_seed(2).build().unwrap();
    board.uncover_cell(0, 0);
    board.flag_cell(2, 0);
    board.reset();
    assert_eq!(*board.get_state(), State::New);
    assert_eq!(board.get_mines_number(), 2);
    for y in 0..3 {
        for x in 0..3 {
            assert_eq!(board.get_visible_cell(x, y), VisibleCell::Covered);
            assert_eq!(board.get_cell(x, y), Cell::Empty);
        }
    }
    // The seed is kept, so the same game comes back.
    board.uncover_cell(0, 0);
    board.uncover_cell(1, 2);
    assert_eq!(*board.get_state(), State::Finished(FinishedState::Lost));
}

#[test]
fn snapshot_round_trip_restores_everything() {
    let mut board = get_test_builder().set_seed(1).build().unwrap();
    board.uncover_cell(0, 0);
    board.flag_cell(2, 0);
    let snapshot = board.save_memento();
    let cells: Vec<VisibleCell> = (0..9).map(|i| board.get_visible_cell(i % 3, i / 3)).collect();
    board.flag_cell(2, 0);
    board.uncover_cell(2, 2);
    assert_eq!(*board.get_state(), State::Finished(FinishedState::Lost));
    board.restore_from_memento(snapshot);
    assert_eq!(*board.get_state(), State::Playing);
    assert_eq!(board.get_mines_number(), 1);
    let restored: Vec<VisibleCell> = (0..9).map(|i| board.get_visible_cell(i % 3, i / 3)).collect();
    assert_eq!(restored, cells);
}

#[test]
fn caretaker_hands_back_the_latest_first() {
    let mut caretaker = Caretaker::new();
    assert!(caretaker.get_last_memento().is_none());
    let mut board = get_test_builder().set_seed(1).build().unwrap();
    caretaker.add_memento(board.save_memento());
    board.uncover_cell(0, 0);
    caretaker.add_memento(board.save_memento());
    board.restore_from_memento(caretaker.get_last_memento().unwrap());
    assert_eq!(*board.get_state(), State::Playing);
    board.restore_from_memento(caretaker.get_last_memento().unwrap());
    assert_eq!(*board.get_state(), State::New);
    assert!(caretaker.get_last_memento().is_none());
}
