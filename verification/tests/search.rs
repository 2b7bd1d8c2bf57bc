use othello::ai::{minimax, score};
use othello::state::{apply, Color, GameState, Pos};

fn at(row: usize, col: usize) -> Pos {
    Pos { row, col }
}

fn board(state: &GameState) -> Vec<Color> {
    let mut out = Vec::new();
    for row in 0..8 {
        for col in 0..8 {
            out.push(state.get_position(at(row, col)));
        }
    }
    out
}

fn after(moves: &[(usize, usize)]) -> GameState {
    let mut state = GameState::new();
    for (row, col) in moves {
        assert_eq!(apply(&mut state, Some(at(*row, *col))), Ok(()));
    }
    state
}

#[test]
fn score_counts_all_64_cells() {
    let state = GameState::new();
    // Two pieces each, 62 other cells.
    assert_eq!(score(&state, Color::Black), -60);
    assert_eq!(score(&state, Color::White), -60);
    // 60 empty cells, four that are not.
    assert_eq!(score(&state, Color::Empty), 56);
}

#[test]
fn score_after_a_capture() {
    let state = after(&[(2, 3)]);
    assert_eq!(score(&state, Color::Black), 4 - 60);
    assert_eq!(score(&state, Color::White), 1 - 63);
}

#[test]
fn score_is_own_pieces_less_all_other_cells() {
    let state = after(&[(4, 5), (5, 3), (4, 2), (3, 5), (2, 4), (5, 5), (4, 6), (5, 4), (6, 4)]);
    let cells = board(&state);
    for color in [Color::Black, Color::White] {
        let own = cells.iter().filter(|c| **c == color).count() as i32;
        let other = cells.iter().filter(|c| **c == color.opposite()).count() as i32;
        let empty = cells.iter().filter(|c| **c == Color::Empty).count() as i32;
        let value = score(&state, color);
        assert_eq!(value, own - other - empty);
        assert!(-64 <= value && value <= 64);
    }
    assert_eq!(score(&state, Color::Black), 13 - 51);
    assert_eq!(score(&state, Color::White), -64);
}

#[test]
fn score_counts_the_last_row_and_column() {
    // A game played to a full board: every cell counts, the edge included.
    let mut state = GameState::new();
    let mut turns = 0;
    while !state.is_game_over() {
        let mut keys: Vec<usize> = state.get_all_lines().keys().copied().collect();
        keys.sort();
        let mv = keys.first().map(|k| at(k / 8, k % 8));
        assert_eq!(apply(&mut state, mv), Ok(()));
        turns += 1;
        assert!(turns <= 200);
    }
    assert_eq!(score(&state, Color::Black), 19 - 45);
    assert_eq!(score(&state, Color::White), 45 - 19);
    assert_eq!(score(&state, Color::Empty), -64);
}

#[test]
fn depth_zero_returns_the_score_and_no_move() {
    let state = GameState::new();
    for maximizing in [true, false] {
        for color in [Color::Black, Color::White, Color::Empty] {
            assert_eq!(
                minimax(&state, 0, maximizing, color),
                (None, score(&state, color))
            );
        }
    }
    assert_eq!(minimax(&state, 0, true, Color::Black), (None, -60));
    let later = after(&[(2, 3), (2, 2)]);
    assert_eq!(
        minimax(&later, 0, true, Color::White),
        (None, score(&later, Color::White))
    );
}

#[test]
fn finished_game_returns_the_score_and_no_move() {
    let mut state = GameState::new();
    assert_eq!(apply(&mut state, None), Ok(()));
    assert_eq!(apply(&mut state, None), Ok(()));
    assert!(state.is_game_over());
    assert_eq!(minimax(&state, 3, true, Color::Black), (None, -60));
    assert_eq!(minimax(&state, 3, false, Color::White), (None, -60));
}

#[test]
fn first_of_equal_moves_wins_when_maximizing() {
    // All four opening moves leave Black with four pieces and White with one.
    let state = GameState::new();
    assert_eq!(minimax(&state, 1, true, Color::Black), (Some(at(2, 3)), -56));
    assert_eq!(minimax(&state, 1, true, Color::White), (Some(at(2, 3)), -62));
}

#[test]
fn first_of_equal_moves_wins_when_minimizing() {
    let state = GameState::new();
    assert_eq!(minimax(&state, 1, false, Color::Black), (Some(at(2, 3)), -56));
    assert_eq!(minimax(&state, 1, false, Color::White), (Some(at(2, 3)), -62));
}

#[test]
fn search_from_the_opening() {
    let state = GameState::new();
    assert_eq!(minimax(&state, 2, true, Color::Black), (Some(at(2, 3)), -58));
    assert_eq!(minimax(&state, 2, false, Color::White), (Some(at(2, 3)), -58));
    assert_eq!(minimax(&state, 3, true, Color::Black), (Some(at(2, 3)), -54));
    assert_eq!(minimax(&state, 3, true, Color::White), (Some(at(2, 3)), -60));
    assert_eq!(minimax(&state, 3, false, Color::Black), (Some(at(2, 3)), -54));
    assert_eq!(minimax(&state, 4, true, Color::Black), (Some(at(2, 3)), -58));
    assert_eq!(minimax(&state, 4, true, Color::White), (Some(at(2, 3)), -56));
    assert_eq!(minimax(&state, 4, false, Color::White), (Some(at(2, 3)), -54));
}

#[test]
fn a_later_move_replaces_a_worse_one() {
    // White to move with (2,2), (2,4) and (4,2) to choose from.
    let state = after(&[(2, 3)]);
    assert_eq!(minimax(&state, 1, true, Color::White), (Some(at(2, 2)), -58));
    assert_eq!(minimax(&state, 2, true, Color::White), (Some(at(2, 2)), -60));
    assert_eq!(minimax(&state, 3, true, Color::White), (Some(at(4, 2)), -54));
    assert_eq!(minimax(&state, 1, false, Color::Black), (Some(at(2, 2)), -58));
}

#[test]
fn search_passes_when_there_is_no_move() {
    // White has no piece left and no move; Black has none either.
    let state = after(&[(4, 5), (5, 3), (4, 2), (3, 5), (2, 4), (5, 5), (4, 6), (5, 4), (6, 4)]);
    assert!(state.get_all_lines().is_empty());
    assert!(!state.is_game_over());
    assert_eq!(minimax(&state, 1, true, Color::White), (None, -64));
    assert_eq!(minimax(&state, 3, true, Color::White), (None, -64));
    assert_eq!(minimax(&state, 2, false, Color::Black), (None, -38));
}

#[test]
fn search_leaves_the_state_alone() {
    let state = after(&[(2, 3)]);
    let cells = board(&state);
    let table = state.get_all_lines().clone();
    let _ = minimax(&state, 3, true, Color::White);
    assert_eq!(board(&state), cells);
    assert_eq!(state.get_all_lines(), &table);
    assert_eq!(state.get_current_player(), Color::White);
    assert!(!state.is_game_over());
}

#[test]
fn search_returns_a_legal_move_of_its_value() {
    let state = after(&[(2, 3), (2, 2), (2, 1)]);
    let (mv, value) = minimax(&state, 3, true, Color::White);
    let p = mv.unwrap();
    assert!(state.get_all_lines().contains_key(&(p.col + p.row * 8)));
    let mut next = state.clone();
    assert_eq!(apply(&mut next, Some(p)), Ok(()));
    assert_eq!(minimax(&next, 2, false, Color::White).1, value);
    // No other legal move does better, and none before it does as well.
    for key in state.get_all_lines().keys() {
        let q = at(key / 8, key % 8);
        let mut other = state.clone();
        assert_eq!(apply(&mut other, Some(q)), Ok(()));
        let v = minimax(&other, 2, false, Color::White).1;
        assert!(v <= value);
        if *key < p.col + p.row * 8 {
            assert!(v < value);
        }
    }
}
