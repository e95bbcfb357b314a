use ultimate_morpion::ai::{evaluate_winning_sequence, SCORE_BOUND, WINNING_WEIGHT};
use ultimate_morpion::{
    alpha_beta, center_heuristic, corner_heuristic, everywhere_heuristic, generate_children,
    minimax, noise, winning_sequence_heuristic, AILevel, CellState, FightTally, Heuristic, Morpion,
    Player, PlayingState,
};

const X: CellState = CellState::Occupied(Player::X);
const O: CellState = CellState::Occupied(Player::O);
const F: CellState = CellState::Free;

fn tie_pattern() -> [CellState; 9] {
    [X, O, X, O, X, O, O, X, O]
}

/// A game near its end: seven tied sub-boards and two with three free cells.
fn endgame() -> Morpion {
    let mut m = Morpion::new();
    for sub in 0..7 {
        m.board.cells[sub] = tie_pattern();
        m.board.states[sub] = CellState::Tie;
    }
    m.board.cells[7] = [X, O, X, O, X, O, F, F, F];
    m.board.cells[8] = [X, O, X, O, X, O, F, F, F];
    m
}

#[test]
fn from_str_levels() {
    assert_eq!(AILevel::from_str("easy"), Some(AILevel::Easy));
    assert_eq!(AILevel::from_str("medium"), Some(AILevel::Medium));
    assert_eq!(AILevel::from_str("hard"), Some(AILevel::Hard));
    assert_eq!(AILevel::from_str("Easy"), None);
    assert_eq!(AILevel::from_str(""), None);
    assert_eq!(AILevel::from_str("hardest"), None);
}

#[test]
fn level_configuration() {
    assert_eq!(AILevel::Easy.search_depth(), 5);
    assert_eq!(AILevel::Easy.heuristic(), Heuristic::Corner);
    assert_eq!(AILevel::Medium.search_depth(), 6);
    assert_eq!(AILevel::Medium.heuristic(), Heuristic::Center);
    assert_eq!(AILevel::Hard.search_depth(), 6);
    assert_eq!(AILevel::Hard.heuristic(), Heuristic::Everywhere);
}

#[test]
fn children_of_new_game() {
    let m = Morpion::new();
    let children = generate_children(&m);
    assert_eq!(children.len(), 81);
    for (k, child) in children.iter().enumerate() {
        let mut expected = m;
        expected.play_at(k / 9, k % 9);
        assert_eq!(*child, expected);
    }
}

#[test]
fn children_follow_the_constraint() {
    let mut m = Morpion::new();
    m.play_at(0, 4);
    m.play_at(4, 0);
    let children = generate_children(&m);
    assert_eq!(children.len(), 8);
    let mut k = 0;
    for sub in 0..9 {
        for cell in 0..9 {
            if m.index_is_playable(sub, cell) {
                let mut expected = m;
                expected.play_at(sub, cell);
                assert_eq!(children[k], expected);
                k += 1;
            }
        }
    }
    assert_eq!(k, children.len());
}

#[test]
fn finished_game_children_are_its_legal_moves() {
    let mut m = endgame();
    m.state = PlayingState::Win(Player::O);
    assert_eq!(generate_children(&m).len(), 6);
}

#[test]
fn heuristics_on_new_game() {
    let m = Morpion::new();
    assert_eq!(center_heuristic(&m, Player::X), 0);
    assert_eq!(corner_heuristic(&m, Player::X), 0);
    assert_eq!(winning_sequence_heuristic(&m, Player::X), 0);
    assert_eq!(everywhere_heuristic(&m, Player::X), 2);
    assert_eq!(everywhere_heuristic(&m, Player::O), -2);
}

#[test]
fn heuristics_after_center_move() {
    let mut m = Morpion::new();
    m.play_at(4, 4);
    assert_eq!(center_heuristic(&m, Player::X), 45);
    assert_eq!(corner_heuristic(&m, Player::X), 15);
    assert_eq!(center_heuristic(&m, Player::O), -45);
    assert_eq!(winning_sequence_heuristic(&m, Player::X), 6);
    assert_eq!(everywhere_heuristic(&m, Player::X), 6);
    assert_eq!(winning_sequence_heuristic(&m, Player::O), -6);
}

#[test]
fn weighted_heuristic_counts_won_sub_boards() {
    let mut m = Morpion::new();
    m.board.states[0] = X;
    m.board.states[4] = O;
    m.board.cells[8][0] = X;
    assert_eq!(center_heuristic(&m, Player::X), 50 * 40 - 50 * 45 + 40);
    assert_eq!(corner_heuristic(&m, Player::X), 50 * 45 - 50 * 15 + 45);
    m.board.states[2] = CellState::Tie;
    assert_eq!(center_heuristic(&m, Player::X), 50 * 40 - 50 * 45 + 40);
}

#[test]
fn winning_sequence_heuristic_bonuses() {
    let mut m = Morpion::new();
    m.board.states[4] = X;
    m.board.states[0] = O;
    m.board.states[1] = X;
    m.focused_big_cell = Some(2);
    // super-board: column 1,4,7 holds two marks of X: +2, doubled
    // won sub-boards: X at 4 (5 + 10), O at 0 (-5 - 3), X at 1 (5)
    assert_eq!(winning_sequence_heuristic(&m, Player::X), 4 + 15 - 8 + 5);
    assert_eq!(everywhere_heuristic(&m, Player::X), 4 + 15 - 8 + 5);
}

#[test]
fn terminal_scores() {
    let mut m = endgame();
    m.state = PlayingState::Win(Player::X);
    for h in [Heuristic::Center, Heuristic::Corner, Heuristic::WinningSequence] {
        assert_eq!(h.evaluate(&m, Player::X), WINNING_WEIGHT);
        assert_eq!(h.evaluate(&m, Player::O), -WINNING_WEIGHT);
    }
    m.state = PlayingState::Tie;
    assert_eq!(center_heuristic(&m, Player::X), 0);
    assert_eq!(winning_sequence_heuristic(&m, Player::O), 0);
}

#[test]
fn evaluate_winning_sequence_example() {
    let s = [X, F, X, O, F, F, O, F, F];
    assert_eq!(evaluate_winning_sequence(&s, Player::X), 2);
    assert_eq!(evaluate_winning_sequence(&s, Player::O), -2);
    let t = [O, F, F, O, F, F, F, F, F];
    assert_eq!(evaluate_winning_sequence(&t, Player::X), -2);
    let u = [X, X, X, F, F, F, F, F, F];
    assert_eq!(evaluate_winning_sequence(&u, Player::X), 0);
    assert_eq!(evaluate_winning_sequence(&[F; 9], Player::X), 0);
}

#[test]
fn depth_zero_is_the_static_evaluation() {
    let mut m = Morpion::new();
    m.play_at(4, 4);
    m.play_at(4, 0);
    for h in [Heuristic::Center, Heuristic::Corner, Heuristic::WinningSequence, Heuristic::Everywhere] {
        for p in [Player::X, Player::O] {
            let v = h.evaluate(&m, p);
            assert_eq!(minimax(&m, 0, p, h), v);
            assert_eq!(alpha_beta(&m, 0, isize::MIN, isize::MAX, p, h), v);
        }
    }
}

#[test]
fn alpha_beta_matches_minimax_without_early_leaves() {
    let mut m = Morpion::new();
    m.play_at(4, 4);
    m.play_at(4, 0);
    for h in [Heuristic::Center, Heuristic::WinningSequence] {
        for p in [Player::X, Player::O] {
            assert_eq!(
                alpha_beta(&m, 2, isize::MIN, isize::MAX, p, h),
                minimax(&m, 2, p, h)
            );
        }
    }
}

#[test]
fn alpha_beta_scales_terminal_leaves() {
    let mut m = endgame();
    m.state = PlayingState::Win(Player::X);
    assert_eq!(minimax(&m, 3, Player::X, Heuristic::Center), WINNING_WEIGHT);
    assert_eq!(
        alpha_beta(&m, 3, isize::MIN, isize::MAX, Player::X, Heuristic::Center),
        4 * WINNING_WEIGHT
    );
}

#[test]
fn minimax_finds_a_sub_board_win() {
    // X to move wins sub-board 8 (weight 40) with (8, 6): 50 * 40, plus
    // X's marks in sub-board 7 (40 + 40 + 45) less O's (10 + 10 + 10)
    let m = endgame();
    let v = minimax(&m, 1, Player::X, Heuristic::Center);
    assert_eq!(v, 2000 + 125 - 30);
    let mut best = m;
    best.play_at(8, 6);
    assert_eq!(v, Heuristic::Center.evaluate(&best, Player::X));
    assert!(v <= SCORE_BOUND);
}

#[test]
fn ai_move_with_noise_is_deterministic() {
    let m = endgame();
    let zeros = vec![0isize; 81];
    let a = m.ai_move_with_noise(AILevel::Easy, &zeros);
    let b = m.ai_move_with_noise(AILevel::Easy, &zeros);
    assert_eq!(a, b);
    assert!(generate_children(&m).contains(&a));
}

#[test]
fn ai_move_with_noise_breaks_ties_by_noise() {
    let m = endgame();
    let children = generate_children(&m);
    let zeros = vec![0isize; 81];
    let first = m.ai_move_with_noise(AILevel::Medium, &zeros);
    let index = children.iter().position(|c| *c == first).unwrap();
    // a large noise on another child moves the choice there
    let other = if index == 0 { 1 } else { 0 };
    let mut noise = vec![0isize; 81];
    noise[other] = 1_000_000_000;
    assert_eq!(m.ai_move_with_noise(AILevel::Medium, &noise), children[other]);
}

#[test]
fn ai_move_returns_a_child() {
    let m = endgame();
    let children = generate_children(&m);
    for level in [AILevel::Easy, AILevel::Medium, AILevel::Hard] {
        let r = m.ai_move(level);
        assert!(children.contains(&r));
        assert_eq!(r.player, Player::O);
    }
}

#[test]
fn noise_stays_in_range() {
    for _ in 0..200 {
        let n = noise(2);
        assert!((-2..2).contains(&n));
    }
    for _ in 0..50 {
        assert!((-1..1).contains(&noise(1)));
    }
}

#[test]
fn tally_counts_results() {
    let mut t = FightTally::new();
    t.record(PlayingState::Win(Player::X));
    t.record(PlayingState::Win(Player::O));
    t.record(PlayingState::Win(Player::X));
    t.record(PlayingState::Tie);
    assert_eq!(t, FightTally { x_wins: 2, o_wins: 1, ties: 1 });
}

#[test]
fn ai_move_on_finished_game_picks_a_legal_move() {
    let mut m = endgame();
    m.state = PlayingState::Win(Player::O);
    let children = generate_children(&m);
    let r = m.ai_move(AILevel::Easy);
    assert!(children.contains(&r));
}

#[test]
fn alpha_beta_at_a_cutoff_ignores_the_window() {
    let mut m = Morpion::new();
    m.play_at(4, 4);
    let v = Heuristic::Center.evaluate(&m, Player::X);
    assert_eq!(v, 45);
    assert_eq!(alpha_beta(&m, 0, 100, 200, Player::X, Heuristic::Center), v);
    assert_eq!(alpha_beta(&m, 0, -10, -5, Player::X, Heuristic::Center), v);
    let mut won = endgame();
    won.state = PlayingState::Win(Player::O);
    assert_eq!(
        alpha_beta(&won, 2, 0, 1, Player::X, Heuristic::Corner),
        -3 * WINNING_WEIGHT
    );
}

#[test]
fn zero_noise_choice_is_first_of_best_score() {
    let m = endgame();
    let children = generate_children(&m);
    let zeros = vec![0isize; 81];
    let chosen = m.ai_move_with_noise(AILevel::Easy, &zeros);
    let scores: Vec<isize> = children
        .iter()
        .map(|c| alpha_beta(c, 5, isize::MIN, isize::MAX, Player::X, Heuristic::Corner))
        .collect();
    let best = *scores.iter().max().unwrap();
    let first = scores.iter().position(|s| *s == best).unwrap();
    assert_eq!(chosen, children[first]);
}

#[test]
fn heuristics_are_zero_sum() {
    let mut m = Morpion::new();
    m.play_at(4, 4);
    m.play_at(4, 2);
    m.play_at(2, 4);
    for h in [Heuristic::Center, Heuristic::Corner, Heuristic::WinningSequence, Heuristic::Everywhere] {
        assert_eq!(h.evaluate(&m, Player::O), -h.evaluate(&m, Player::X));
    }
    let e = endgame();
    assert_eq!(everywhere_heuristic(&e, Player::O), -everywhere_heuristic(&e, Player::X));
    assert_eq!(everywhere_heuristic(&e, Player::X), 2 + winning_sequence_heuristic(&e, Player::X));
}

#[test]
fn minimax_is_zero_sum() {
    let mut m = Morpion::new();
    m.play_at(4, 4);
    m.play_at(4, 0);
    for h in [Heuristic::Center, Heuristic::Everywhere] {
        assert_eq!(minimax(&m, 2, Player::O, h), -minimax(&m, 2, Player::X, h));
    }
    let e = endgame();
    assert_eq!(
        alpha_beta(&e, 4, isize::MIN, isize::MAX, Player::O, Heuristic::Corner),
        -alpha_beta(&e, 4, isize::MIN, isize::MAX, Player::X, Heuristic::Corner)
    );
}
