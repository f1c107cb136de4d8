use minesweeper::board::{Cell, CellStatus, CellValue};
use minesweeper::game::{ConfigError, Game, GameStatus, Message};
use minesweeper::grid::with_surrounding_cells;

fn three_by_three() -> Game {
    Game::with_mines(3, 3, &vec![(2, 2)])
}

fn count_status(g: &Game, s: CellStatus) -> usize {
    let mut n = 0;
    for x in 0..g.columns() {
        for y in 0..g.rows() {
            if g.cell(x, y).status == s {
                n += 1;
            }
        }
    }
    n
}

fn brute_force_numbers_hold(g: &Game) -> bool {
    let (cols, rows) = (g.columns() as i64, g.rows() as i64);
    for x in 0..cols {
        for y in 0..rows {
            let c = g.cell(x as usize, y as usize);
            if let CellValue::Number(n) = c.value {
                let mut count = 0u8;
                for dx in -1i64..=1 {
                    for dy in -1i64..=1 {
                        let (nx, ny) = (x + dx, y + dy);
                        if (dx, dy) != (0, 0) && nx >= 0 && ny >= 0 && nx < cols && ny < rows {
                            if g.cell(nx as usize, ny as usize).value == CellValue::Mined {
                                count += 1;
                            }
                        }
                    }
                }
                if count != n {
                    return false;
                }
            }
        }
    }
    true
}

fn mined_count(g: &Game) -> usize {
    let mut n = 0;
    for x in 0..g.columns() {
        for y in 0..g.rows() {
            if g.cell(x, y).value == CellValue::Mined {
                n += 1;
            }
        }
    }
    n
}

#[test]
fn single_mine_board_numbers() {
    let g = three_by_three();
    assert_eq!(g.cell(1, 1).value, CellValue::Number(1));
    assert_eq!(g.cell(0, 0).value, CellValue::Number(0));
    assert_eq!(g.cell(2, 2).value, CellValue::Mined);
    assert_eq!(g.cell(2, 1).value, CellValue::Number(1));
    assert_eq!(g.cell(1, 2).value, CellValue::Number(1));
    assert_eq!(g.cell(0, 2).value, CellValue::Number(0));
    assert!(brute_force_numbers_hold(&g));
}

#[test]
fn reveal_zero_corner_floods_and_wins() {
    let mut g = three_by_three();
    g.reveal_cell(0, 0);
    assert_eq!(g.revealed_count(), 8);
    assert_eq!(g.status(), GameStatus::Won);
    for x in 0..3 {
        for y in 0..3 {
            let expected = if (x, y) == (2, 2) { CellStatus::Covered } else { CellStatus::Revealed };
            assert_eq!(g.cell(x, y).status, expected);
        }
    }
}

#[test]
fn reveal_mine_loses_and_freezes_flags() {
    let mut g = three_by_three();
    g.reveal_cell(2, 2);
    assert_eq!(g.status(), GameStatus::Lost);
    assert_eq!(g.cell(2, 2).status, CellStatus::Revealed);
    assert_eq!(g.revealed_count(), 0);
    g.toggle_flag(0, 0);
    assert_eq!(g.flag_count(), 0);
    assert_eq!(g.cell(0, 0).status, CellStatus::Covered);
}

#[test]
fn flagged_cell_is_not_revealed() {
    let mut g = three_by_three();
    g.toggle_flag(0, 0);
    assert_eq!(g.cell(0, 0).status, CellStatus::Flagged);
    g.reveal_cell(0, 0);
    assert_eq!(g.cell(0, 0).status, CellStatus::Flagged);
    assert_eq!(g.revealed_count(), 0);
    assert_eq!(g.status(), GameStatus::Playing);
}

#[test]
fn chord_reveals_only_unflagged_neighbour() {
    // Mines at (1, 0) and (0, 1); (0, 0) and (1, 1) each read 2.
    let mut g = Game::with_mines(2, 2, &vec![(1, 0), (0, 1)]);
    assert_eq!(g.cell(0, 0).value, CellValue::Number(2));
    g.reveal_cell(0, 0);
    assert_eq!(g.revealed_count(), 1);
    g.toggle_flag(1, 0);
    g.toggle_flag(0, 1);
    g.chord_reveal(0, 0);
    assert_eq!(g.cell(1, 1).status, CellStatus::Revealed);
    assert_eq!(g.cell(1, 0).status, CellStatus::Flagged);
    assert_eq!(g.cell(0, 1).status, CellStatus::Flagged);
    assert_eq!(g.revealed_count(), 2);
    assert_eq!(g.status(), GameStatus::Won);
}

#[test]
fn chord_floods_through_zero_neighbour() {
    // Two columns of mines on the left of a 4 x 2 board.
    let mut g = Game::with_mines(2, 4, &vec![(0, 0), (0, 1)]);
    assert_eq!(g.cell(1, 0).value, CellValue::Number(2));
    assert_eq!(g.cell(2, 0).value, CellValue::Number(0));
    g.reveal_cell(1, 0);
    assert_eq!(g.revealed_count(), 1);
    g.toggle_flag(0, 0);
    g.toggle_flag(0, 1);
    g.chord_reveal(1, 0);
    assert_eq!(g.revealed_count(), 6);
    assert_eq!(g.status(), GameStatus::Won);
    assert_eq!(g.cell(3, 1).status, CellStatus::Revealed);
}

#[test]
fn chord_with_wrong_flag_count_does_nothing() {
    let mut g = Game::with_mines(2, 2, &vec![(1, 0), (0, 1)]);
    g.reveal_cell(0, 0);
    g.toggle_flag(1, 0);
    g.chord_reveal(0, 0);
    assert_eq!(g.cell(1, 1).status, CellStatus::Covered);
    assert_eq!(g.cell(0, 1).status, CellStatus::Covered);
    assert_eq!(g.revealed_count(), 1);
}

#[test]
fn chord_on_covered_cell_does_nothing() {
    let mut g = Game::with_mines(2, 2, &vec![(1, 0), (0, 1)]);
    g.chord_reveal(0, 0);
    assert_eq!(g.revealed_count(), 0);
    assert_eq!(count_status(&g, CellStatus::Covered), 4);
}

#[test]
fn chord_with_wrong_flag_loses() {
    // Flags on (0, 1) and (1, 1) while the mines are at (1, 0) and (0, 1).
    let mut g = Game::with_mines(3, 3, &vec![(1, 0), (0, 1)]);
    g.reveal_cell(0, 0);
    assert_eq!(g.cell(0, 0).value, CellValue::Number(2));
    g.toggle_flag(0, 1);
    g.toggle_flag(1, 1);
    g.chord_reveal(0, 0);
    assert_eq!(g.status(), GameStatus::Lost);
    assert_eq!(g.cell(1, 0).status, CellStatus::Revealed);
}

#[test]
fn reveal_twice_is_idempotent() {
    let mut g = Game::with_mines(4, 4, &vec![(3, 3), (3, 2)]);
    g.reveal_cell(0, 0);
    let once = g.revealed_count();
    let covered = count_status(&g, CellStatus::Covered);
    g.reveal_cell(0, 0);
    assert_eq!(g.revealed_count(), once);
    assert_eq!(count_status(&g, CellStatus::Covered), covered);
}

#[test]
fn flood_fill_stops_at_flags() {
    // A 5 x 1 strip with a mine at the right end; a flag at x = 2 splits it.
    let mut g = Game::with_mines(1, 5, &vec![(4, 0)]);
    g.toggle_flag(2, 0);
    g.reveal_cell(0, 0);
    assert_eq!(g.cell(0, 0).status, CellStatus::Revealed);
    assert_eq!(g.cell(1, 0).status, CellStatus::Revealed);
    assert_eq!(g.cell(2, 0).status, CellStatus::Flagged);
    assert_eq!(g.cell(3, 0).status, CellStatus::Covered);
    assert_eq!(g.revealed_count(), 2);
    assert_eq!(g.status(), GameStatus::Playing);
}

#[test]
fn flood_fill_stops_at_numbers() {
    // 5 x 5 with one mine in the middle row at the right edge.
    let mut g = Game::with_mines(5, 5, &vec![(4, 2)]);
    g.reveal_cell(0, 0);
    // Everything but the mine and nothing else opens: the region borders (4, 2)
    // only through numbered cells, which are revealed but not expanded.
    assert_eq!(g.revealed_count(), 24);
    assert_eq!(g.status(), GameStatus::Won);
    let mut h = Game::with_mines(5, 5, &vec![(2, 2), (2, 0), (2, 4), (2, 1), (2, 3)]);
    h.reveal_cell(0, 0);
    // The wall of mines in column 2 confines the fill to columns 0 and 1.
    assert_eq!(h.revealed_count(), 10);
    assert_eq!(h.cell(3, 0).status, CellStatus::Covered);
    assert_eq!(h.cell(1, 0).status, CellStatus::Revealed);
}

#[test]
fn reveal_numbered_cell_opens_only_it() {
    let mut g = three_by_three();
    g.reveal_cell(1, 1);
    assert_eq!(g.revealed_count(), 1);
    assert_eq!(count_status(&g, CellStatus::Revealed), 1);
    assert_eq!(g.status(), GameStatus::Playing);
}

#[test]
fn flags_stay_within_mine_budget() {
    let mut g = three_by_three();
    g.toggle_flag(0, 0);
    assert_eq!(g.flag_count(), 1);
    assert_eq!(g.remaining_mines(), 0);
    g.toggle_flag(0, 1);
    assert_eq!(g.flag_count(), 1);
    assert_eq!(g.cell(0, 1).status, CellStatus::Covered);
    g.toggle_flag(0, 0);
    assert_eq!(g.flag_count(), 0);
    assert_eq!(g.cell(0, 0).status, CellStatus::Covered);
    g.toggle_flag(0, 0);
    g.toggle_flag(0, 0);
    assert_eq!(g.flag_count(), 0);
    g.reveal_cell(1, 1);
    g.toggle_flag(1, 1);
    assert_eq!(g.flag_count(), 0);
    assert_eq!(g.cell(1, 1).status, CellStatus::Revealed);
}

#[test]
fn flag_count_matches_flagged_cells() {
    let mut g = Game::with_mines(4, 4, &vec![(0, 0), (1, 1), (2, 2)]);
    let moves = [(0, 0), (3, 3), (1, 2), (0, 0), (2, 1), (3, 0), (3, 0), (1, 3)];
    for (x, y) in moves {
        g.toggle_flag(x, y);
        assert!(g.flag_count() <= g.mine_count());
        assert_eq!(g.flag_count(), count_status(&g, CellStatus::Flagged));
    }
    assert_eq!(g.flag_count(), 3);
}

#[test]
fn game_over_freezes_board() {
    let mut g = Game::with_mines(2, 2, &vec![(1, 0), (0, 1)]);
    g.reveal_cell(0, 0);
    g.reveal_cell(1, 0);
    assert_eq!(g.status(), GameStatus::Lost);
    let snapshot: Vec<Cell> = (0..2).flat_map(|x| (0..2).map(move |y| (x, y))).map(|(x, y)| g.cell(x, y)).collect();
    g.reveal_cell(1, 1);
    g.toggle_flag(0, 1);
    g.chord_reveal(0, 0);
    g.set_pressing(true);
    let after: Vec<Cell> = (0..2).flat_map(|x| (0..2).map(move |y| (x, y))).map(|(x, y)| g.cell(x, y)).collect();
    assert_eq!(snapshot, after);
    assert_eq!(g.status(), GameStatus::Lost);
    assert_eq!(g.revealed_count(), 1);
    assert_eq!(g.flag_count(), 0);
}

#[test]
fn won_game_is_frozen() {
    let mut g = three_by_three();
    g.reveal_cell(0, 0);
    assert_eq!(g.status(), GameStatus::Won);
    g.reveal_cell(2, 2);
    g.toggle_flag(2, 2);
    assert_eq!(g.status(), GameStatus::Won);
    assert_eq!(g.cell(2, 2).status, CellStatus::Covered);
    assert_eq!(g.flag_count(), 0);
}

#[test]
fn win_exactly_when_all_safe_cells_revealed() {
    let mut g = Game::with_mines(1, 5, &vec![(2, 0)]);
    g.reveal_cell(0, 0);
    assert_eq!(g.revealed_count(), 2);
    assert_eq!(g.status(), GameStatus::Playing);
    g.reveal_cell(3, 0);
    assert_eq!(g.revealed_count(), 3);
    assert_eq!(g.status(), GameStatus::Playing);
    g.reveal_cell(4, 0);
    assert_eq!(g.revealed_count(), 4);
    assert_eq!(g.status(), GameStatus::Won);
}

#[test]
fn pressing_is_active_play() {
    let mut g = three_by_three();
    g.set_pressing(true);
    assert_eq!(g.status(), GameStatus::Pressing);
    g.toggle_flag(0, 2);
    assert_eq!(g.flag_count(), 1);
    g.reveal_cell(1, 1);
    assert_eq!(g.revealed_count(), 1);
    g.set_pressing(false);
    assert_eq!(g.status(), GameStatus::Playing);
}

#[test]
fn update_dispatches_messages() {
    let mut g = three_by_three();
    g.update(Message::Pressing(true));
    assert_eq!(g.status(), GameStatus::Pressing);
    g.update(Message::Pressing(false));
    g.update(Message::Flag(0, 2));
    assert_eq!(g.cell(0, 2).status, CellStatus::Flagged);
    g.update(Message::Reveal(1, 1));
    assert_eq!(g.cell(1, 1).status, CellStatus::Revealed);
    g.update(Message::SpecialReveal(1, 1));
    assert_eq!(g.cell(1, 1).status, CellStatus::Revealed);
    g.update(Message::Reveal(2, 2));
    assert_eq!(g.status(), GameStatus::Lost);
    g.update(Message::NewGame);
    assert_eq!(g.status(), GameStatus::Playing);
    assert_eq!(g.revealed_count(), 0);
    assert_eq!(g.flag_count(), 0);
    assert_eq!(mined_count(&g), 1);
    assert_eq!(count_status(&g, CellStatus::Covered), 9);
}

#[test]
fn reset_gives_fresh_game() {
    let mut g = Game::generate(16, 30, 99).unwrap();
    g.toggle_flag(3, 4);
    g.reveal_cell(10, 10);
    g.reset();
    assert_eq!(g.rows(), 16);
    assert_eq!(g.columns(), 30);
    assert_eq!(g.mine_count(), 99);
    assert_eq!(g.status(), GameStatus::Playing);
    assert_eq!(g.revealed_count(), 0);
    assert_eq!(g.flag_count(), 0);
    assert_eq!(count_status(&g, CellStatus::Covered), 480);
    assert_eq!(mined_count(&g), 99);
    assert!(brute_force_numbers_hold(&g));
}

#[test]
fn generate_places_exact_mine_count() {
    for &(rows, cols, mines) in &[(16, 30, 99), (1, 1, 0), (1, 2, 1), (3, 3, 8), (5, 7, 0), (9, 9, 10)] {
        let g = Game::generate(rows, cols, mines).unwrap();
        assert_eq!(g.rows(), rows);
        assert_eq!(g.columns(), cols);
        assert_eq!(mined_count(&g), mines);
        assert!(brute_force_numbers_hold(&g));
        assert_eq!(count_status(&g, CellStatus::Covered), rows * cols);
        assert_eq!(g.status(), GameStatus::Playing);
    }
}

#[test]
fn generate_shuffles_positions() {
    // Without a shuffle the mines would sit at the first positions, along row 0.
    let mut all_in_first = true;
    for _ in 0..3 {
        let g = Game::generate(10, 10, 5).unwrap();
        let first: Vec<bool> = (0..5).map(|x| g.cell(x, 0).value == CellValue::Mined).collect();
        if first.iter().any(|m| !m) {
            all_in_first = false;
        }
    }
    assert!(!all_in_first);
}

#[test]
fn generate_rejects_bad_configurations() {
    assert_eq!(Game::generate(0, 5, 1).err(), Some(ConfigError::EmptyBoard));
    assert_eq!(Game::generate(5, 0, 0).err(), Some(ConfigError::EmptyBoard));
    assert_eq!(Game::generate(3, 3, 9).err(), Some(ConfigError::TooManyMines));
    assert_eq!(Game::generate(3, 3, 100).err(), Some(ConfigError::TooManyMines));
    assert!(Game::generate(3, 3, 8).is_ok());
}

#[test]
fn single_safe_cell_board() {
    let mut g = Game::generate(1, 2, 1).unwrap();
    let safe = if g.cell(0, 0).value == CellValue::Mined { 1 } else { 0 };
    assert_eq!(g.cell(safe, 0).value, CellValue::Number(1));
    g.reveal_cell(safe, 0);
    assert_eq!(g.status(), GameStatus::Won);
}

#[test]
fn neighbours_at_corners_and_edges() {
    let sorted = |mut v: Vec<(usize, usize)>| {
        v.sort();
        v
    };
    assert_eq!(sorted(with_surrounding_cells(0, 0, 3, 3)), vec![(0, 1), (1, 0), (1, 1)]);
    assert_eq!(sorted(with_surrounding_cells(2, 0, 3, 3)), vec![(1, 0), (1, 1), (2, 1)]);
    assert_eq!(sorted(with_surrounding_cells(0, 2, 3, 3)), vec![(0, 1), (1, 1), (1, 2)]);
    assert_eq!(sorted(with_surrounding_cells(2, 2, 3, 3)), vec![(1, 1), (1, 2), (2, 1)]);
    assert_eq!(sorted(with_surrounding_cells(1, 0, 3, 3)), vec![(0, 0), (0, 1), (1, 1), (2, 0), (2, 1)]);
    assert_eq!(sorted(with_surrounding_cells(0, 1, 3, 3)), vec![(0, 0), (0, 2), (1, 0), (1, 1), (1, 2)]);
    assert_eq!(sorted(with_surrounding_cells(2, 1, 3, 3)), vec![(1, 0), (1, 1), (1, 2), (2, 0), (2, 2)]);
    assert_eq!(sorted(with_surrounding_cells(1, 2, 3, 3)), vec![(0, 1), (0, 2), (1, 1), (2, 1), (2, 2)]);
    assert_eq!(with_surrounding_cells(1, 1, 3, 3).len(), 8);
    assert_eq!(with_surrounding_cells(0, 0, 1, 1), vec![]);
    assert_eq!(sorted(with_surrounding_cells(0, 3, 1, 5)), vec![(0, 2), (0, 4)]);
    assert_eq!(with_surrounding_cells(29, 15, 30, 16).len(), 3);
}

#[test]
fn corner_mines_number_edges() {
    let g = Game::with_mines(3, 4, &vec![(0, 0), (3, 0), (0, 2), (3, 2)]);
    assert_eq!(g.cell(1, 1).value, CellValue::Number(2));
    assert_eq!(g.cell(2, 1).value, CellValue::Number(2));
    assert_eq!(g.cell(1, 0).value, CellValue::Number(1));
    assert_eq!(g.cell(0, 1).value, CellValue::Number(2));
    assert_eq!(g.cell(3, 1).value, CellValue::Number(2));
    assert!(brute_force_numbers_hold(&g));
}

#[test]
fn titles_follow_status() {
    let mut g = three_by_three();
    assert_eq!(g.title(), "Minesweeper");
    g.reveal_cell(0, 0);
    assert_eq!(g.title(), "Minesweeper - You Won");
    let mut h = three_by_three();
    h.reveal_cell(2, 2);
    assert_eq!(h.title(), "Minesweeper - You Lost");
}
