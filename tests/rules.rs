use ultimate_morpion::{all_occupied, is_won_by, CellState, Morpion, Player, PlayingState};

const X: CellState = CellState::Occupied(Player::X);
const O: CellState = CellState::Occupied(Player::O);
const F: CellState = CellState::Free;

fn tie_pattern() -> [CellState; 9] {
    [X, O, X, O, X, O, O, X, O]
}

#[test]
fn other_switches_players() {
    assert_eq!(Player::X.other(), Player::O);
    assert_eq!(Player::O.other(), Player::X);
}

#[test]
fn new_game_is_empty() {
    let m = Morpion::new();
    assert_eq!(m.player, Player::X);
    assert_eq!(m.state, PlayingState::Continue);
    assert_eq!(m.focused_big_cell, None);
    assert!(m.board.states.iter().all(|s| *s == F));
    assert!(m.board.cells.iter().all(|c| c.iter().all(|s| *s == F)));
    assert!(!m.is_over());
}

#[test]
fn all_occupied_counts_ties_as_filled() {
    assert!(!all_occupied(&[F; 9]));
    assert!(all_occupied(&tie_pattern()));
    let mut s = tie_pattern();
    s[4] = CellState::Tie;
    assert!(all_occupied(&s));
    s[8] = F;
    assert!(!all_occupied(&s));
}

#[test]
fn is_won_by_every_line() {
    let lines = [
        [0, 1, 2],
        [3, 4, 5],
        [6, 7, 8],
        [0, 3, 6],
        [1, 4, 7],
        [2, 5, 8],
        [0, 4, 8],
        [2, 4, 6],
    ];
    for line in lines.iter() {
        let mut s = [F; 9];
        for &k in line.iter() {
            s[k] = O;
        }
        assert!(is_won_by(&s, Player::O));
        assert!(!is_won_by(&s, Player::X));
    }
    assert!(!is_won_by(&[X, X, O, F, F, F, F, F, F], Player::X));
}

#[test]
fn super_board_row_is_a_win() {
    let mut m = Morpion::new();
    m.board.states = [X, X, X, F, F, F, F, F, F];
    m.player = Player::O;
    assert!(is_won_by(&m.board.states, Player::X));
    assert_eq!(m.check_playing_state(), PlayingState::Win(Player::X));
}

#[test]
fn center_move_on_empty_board() {
    let mut m = Morpion::new();
    assert!(m.index_is_playable(4, 4));
    m.play_at(4, 4);
    assert_eq!(m.board.cells[4][4], X);
    assert_eq!(m.board.states[4], F);
    assert_eq!(m.focused_big_cell, Some(4));
    assert_eq!(m.player, Player::O);
    assert_eq!(m.state, PlayingState::Continue);
    assert!(m.index_is_playable(4, 0));
    assert!(!m.index_is_playable(4, 4));
    assert!(!m.index_is_playable(3, 0));
}

#[test]
fn full_sub_board_without_line_is_tied() {
    let mut m = Morpion::new();
    let mut cells = tie_pattern();
    cells[8] = F;
    m.board.cells[0] = cells;
    m.player = Player::O;
    assert!(m.index_is_playable(0, 8));
    m.play_at(0, 8);
    assert_eq!(m.board.states[0], CellState::Tie);
    assert!(!is_won_by(&m.board.cells[0], Player::X));
    assert!(!is_won_by(&m.board.cells[0], Player::O));
    assert_eq!(m.focused_big_cell, Some(8));
    for cell in 0..9 {
        assert!(!m.index_is_playable(0, cell));
    }
    m.focused_big_cell = None;
    for cell in 0..9 {
        assert!(!m.index_is_playable(0, cell));
    }
}

#[test]
fn winning_a_sub_board_claims_it() {
    let mut m = Morpion::new();
    m.board.cells[2] = [X, X, F, O, O, F, F, F, F];
    m.play_at(2, 2);
    assert_eq!(m.board.states[2], X);
    assert_eq!(m.focused_big_cell, None);
    assert!(!m.index_is_playable(2, 5));
    assert!(m.index_is_playable(0, 0));
}

#[test]
fn move_into_closed_sub_board_lifts_the_constraint() {
    let mut m = Morpion::new();
    m.board.states[3] = CellState::Tie;
    m.board.cells[3] = tie_pattern();
    m.play_at(0, 3);
    assert_eq!(m.focused_big_cell, None);
    assert!(m.index_is_playable(5, 5));
    assert!(!m.index_is_playable(3, 0));
}

#[test]
fn board_with_no_open_cell_is_a_tie() {
    let mut m = Morpion::new();
    for sub in 0..9 {
        m.board.cells[sub] = tie_pattern();
        m.board.states[sub] = CellState::Tie;
    }
    assert_eq!(m.check_playing_state(), PlayingState::Tie);
    m.board.states[8] = F;
    m.board.cells[8][8] = F;
    assert_eq!(m.check_playing_state(), PlayingState::Continue);
}

#[test]
fn reset_restores_a_new_game() {
    let mut m = Morpion::new();
    m.play_at(0, 1);
    m.play_at(1, 2);
    m.reset();
    assert_eq!(m, Morpion::new());
}

fn rescan(m: &Morpion) -> PlayingState {
    if is_won_by(&m.board.states, Player::X) {
        PlayingState::Win(Player::X)
    } else if is_won_by(&m.board.states, Player::O) {
        PlayingState::Win(Player::O)
    } else {
        let open = (0..9).any(|i| m.board.states[i] == F && !all_occupied(&m.board.cells[i]));
        if all_occupied(&m.board.states) || !open {
            PlayingState::Tie
        } else {
            PlayingState::Continue
        }
    }
}

fn aggregate_of(cells: &[CellState; 9]) -> CellState {
    if is_won_by(cells, Player::X) {
        X
    } else if is_won_by(cells, Player::O) {
        O
    } else if all_occupied(cells) {
        CellState::Tie
    } else {
        F
    }
}

#[test]
fn played_game_keeps_aggregates_and_state_consistent() {
    let mut m = Morpion::new();
    let mut moves = 0;
    // always the first legal move: a deterministic game to its end
    while !m.is_over() {
        let mut played = false;
        for sub in 0..9 {
            for cell in 0..9 {
                if !played && m.index_is_playable(sub, cell) {
                    m.play_at(sub, cell);
                    played = true;
                }
            }
        }
        assert!(played);
        moves += 1;
        for sub in 0..9 {
            assert_eq!(m.board.states[sub], aggregate_of(&m.board.cells[sub]));
        }
        assert_eq!(m.state, rescan(&m));
        assert_eq!(m.state, m.check_playing_state());
    }
    assert!(moves <= 81);
}

#[test]
fn grid_rows_lay_out_sub_boards() {
    let mut m = Morpion::new();
    assert!((0..9).all(|r| m.grid_row(r) == [F; 9]));
    m.play_at(4, 4);
    m.play_at(4, 0);
    m.play_at(2, 5);
    assert_eq!(m.grid_row(4)[4], X);
    assert_eq!(m.grid_row(3)[3], O);
    assert_eq!(m.grid_row(1)[8], X);
    assert_eq!(m.grid_row(1)[7], F);
}

#[test]
fn display_text_of_players_and_cells() {
    assert_eq!(Player::X.to_string(), "X");
    assert_eq!(Player::O.to_string(), "O");
    assert_eq!(X.to_string(), "X");
    assert_eq!(O.to_string(), "O");
    assert_eq!(F.to_string(), "*");
    assert_eq!(CellState::Tie.to_string(), "");
}
