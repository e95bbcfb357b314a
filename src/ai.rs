use crate::morpion::{lemma_has_move, lemma_play_wf, CellState, Morpion, Player, PlayingState};
use rand::Rng;
use vstd::prelude::*;
use vstd::string::StrSliceExecFns;

verus! {

/// The different AI difficulty levels, each a search depth and a heuristic.
#[derive(Clone, Copy, PartialEq, Eq, Debug, Structural)]
pub enum AILevel {
    /// The easiest difficulty, making basic and predictable moves.
    Easy,
    /// A medium difficulty level with a better strategy.
    Medium,
    /// The hardest difficulty, utilizing advanced heuristics.
    Hard,
}

/// The level that the name `s` stands for, if any.
pub open spec fn level_named(s: Seq<char>) -> Option<AILevel> {
    if s == "easy"@ {
        Some(AILevel::Easy)
    } else if s == "medium"@ {
        Some(AILevel::Medium)
    } else if s == "hard"@ {
        Some(AILevel::Hard)
    } else {
        None
    }
}

/// How deep each level searches.
pub open spec fn level_depth(level: AILevel) -> int {
    match level {
        AILevel::Easy => 5,
        AILevel::Medium => 6,
        AILevel::Hard => 6,
    }
}

/// The heuristic each level searches with.
pub open spec fn level_heuristic(level: AILevel) -> Heuristic {
    match level {
        AILevel::Easy => Heuristic::Corner,
        AILevel::Medium => Heuristic::Center,
        AILevel::Hard => Heuristic::Everywhere,
    }
}

/// True iff the strings `s` and `word` hold the same characters.
fn same_text(s: &str, word: &str) -> (r: bool)
    ensures
        r == (s@ == word@),
{
    let n = s.unicode_len();
    if n != word.unicode_len() {
        return false;
    }
    let mut i: usize = 0;
    while i < n
        invariant
            n == s@.len(),
            n == word@.len(),
            i <= n,
            forall|k: int| 0 <= k < i ==> s@[k] == word@[k],
        decreases n - i,
    {
        if s.get_char(i) != word.get_char(i) {
            return false;
        }
        i += 1;
    }
    assert(s@ =~= word@);
    true
}

impl AILevel {
    /// Converts a string representation of AI difficulty level ("easy",
    /// "medium" or "hard") into an [`AILevel`]; `None` for any other string.
    pub fn from_str(s: &str) -> (r: Option<Self>)
        ensures
            r == level_named(s@),
    {
        if same_text(s, "easy") {
            Some(AILevel::Easy)
        } else if same_text(s, "medium") {
            Some(AILevel::Medium)
        } else if same_text(s, "hard") {
            Some(AILevel::Hard)
        } else {
            None
        }
    }

    /// How deep this level searches.
    pub fn search_depth(&self) -> (r: isize)
        ensures
            r == level_depth(*self),
    {
        match self {
            AILevel::Easy => 5,
            AILevel::Medium => 6,
            AILevel::Hard => 6,
        }
    }

    /// The heuristic this level searches with.
    pub fn heuristic(&self) -> (r: Heuristic)
        ensures
            r == level_heuristic(*self),
    {
        match self {
            AILevel::Easy => Heuristic::Corner,
            AILevel::Medium => Heuristic::Center,
            AILevel::Hard => Heuristic::Everywhere,
        }
    }
}

/// Score of a won game, from the winner's side.
pub const WINNING_WEIGHT: isize = 10000;

/// No heuristic score is larger than this in absolute value.
pub const SCORE_BOUND: isize = 20250;

/// The weight of each cell in the center-favoring heuristic.
pub open spec fn center_weight(i: int) -> int {
    if i == 4 {
        45
    } else if i % 2 == 0 {
        40
    } else {
        10
    }
}

/// The weight of each cell in the corner-favoring heuristic.
pub open spec fn corner_weight(i: int) -> int {
    if i == 4 {
        15
    } else if i % 2 == 0 {
        45
    } else {
        10
    }
}

/// `1` if `actual` is the maximizing player, `-1` otherwise.
pub open spec fn sign(actual: Player, maximizing: Player) -> int {
    if actual == maximizing {
        1
    } else {
        -1
    }
}

/// The sum `f(0) + ... + f(n - 1)`.
pub open spec fn sum_to(f: spec_fn(int) -> int, n: int) -> int
    decreases n,
{
    if n <= 0 {
        0
    } else {
        sum_to(f, n - 1) + f(n - 1)
    }
}

/// The value `w` of a cell from the maximizing player's side: `w` for their
/// own mark, `-w` for the opponent's, `0` for any other cell.
pub open spec fn mark_value(c: CellState, maximizing: Player, w: int) -> int {
    match c {
        CellState::Occupied(p) => sign(p, maximizing) * w,
        _ => 0,
    }
}

/// The score of a finished game: the winning weight, signed by the winner.
pub open spec fn final_value(state: PlayingState, maximizing: Player) -> int {
    match state {
        PlayingState::Win(p) => sign(p, maximizing) * WINNING_WEIGHT,
        _ => 0,
    }
}

/// What the cells of the open sub-board `i` add to the weighted score.
pub open spec fn weighted_cells(
    node: Morpion,
    maximizing: Player,
    weights: spec_fn(int) -> int,
    i: int,
) -> spec_fn(int) -> int {
    |j: int| mark_value(node.board.cells[i][j], maximizing, weights(j))
}

/// What sub-board `i` adds to the weighted score: fifty times its weight
/// when it is won, the weights of its marked cells while it is open.
pub open spec fn weighted_term(
    node: Morpion,
    maximizing: Player,
    weights: spec_fn(int) -> int,
) -> spec_fn(int) -> int {
    |i: int|
        match node.board.states[i] {
            CellState::Occupied(p) => sign(p, maximizing) * 50 * weights(i),
            CellState::Tie => 0,
            CellState::Free => sum_to(weighted_cells(node, maximizing, weights, i), 9),
        }
}

/// The weighted positional score of a game.
pub open spec fn weighted_value(
    node: Morpion,
    maximizing: Player,
    weights: spec_fn(int) -> int,
) -> int {
    match node.state {
        PlayingState::Continue => sum_to(weighted_term(node, maximizing, weights), 9),
        _ => final_value(node.state, maximizing),
    }
}

/// The sum of the signed marks on the line `a`, `b`, `c` of `s`.
pub open spec fn line_sum(s: Seq<CellState>, maximizing: Player, a: int, b: int, c: int) -> int {
    mark_value(s[a], maximizing, 1) + mark_value(s[b], maximizing, 1) + mark_value(
        s[c],
        maximizing,
        1,
    )
}

/// A line counts its signed sum when that sum is even, and nothing otherwise.
#[verifier::opaque]
pub open spec fn line_value(s: Seq<CellState>, maximizing: Player, a: int, b: int, c: int) -> int {
    let t = line_sum(s, maximizing, a, b, c);
    if t % 2 == 0 {
        t
    } else {
        0
    }
}

/// The winning-sequence score of a 3x3 grid: the values of its eight lines.
#[verifier::opaque]
pub open spec fn sequence_value(s: Seq<CellState>, maximizing: Player) -> int {
    line_value(s, maximizing, 0, 1, 2) + line_value(s, maximizing, 3, 4, 5) + line_value(
        s,
        maximizing,
        6,
        7,
        8,
    ) + line_value(s, maximizing, 0, 3, 6) + line_value(s, maximizing, 1, 4, 7) + line_value(
        s,
        maximizing,
        2,
        5,
        8,
    ) + line_value(s, maximizing, 0, 4, 8) + line_value(s, maximizing, 2, 4, 6)
}

/// The position bonus of a mark in cell `j` of the open sub-board `i`:
/// three for a center cell, three more in the center sub-board.
pub open spec fn sequence_cells(node: Morpion, maximizing: Player, i: int) -> spec_fn(int) -> int {
    |j: int|
        match node.board.cells[i][j] {
            CellState::Occupied(p) => (if j == 4 {
                sign(p, maximizing) * 3
            } else {
                0
            }) + (if i == 4 {
                sign(p, maximizing) * 3
            } else {
                0
            }),
            _ => 0,
        }
}

/// What sub-board `i` adds to the winning-sequence score: five for a won
/// sub-board, ten more at the center or three more at a corner; for an open
/// one, its own winning sequences and the position bonus of its marks.
pub open spec fn sequence_term(node: Morpion, maximizing: Player) -> spec_fn(int) -> int {
    |i: int|
        match node.board.states[i] {
            CellState::Occupied(p) => sign(p, maximizing) * 5 + (if i == 4 {
                sign(p, maximizing) * 10
            } else if i == 0 || i == 2 || i == 6 || i == 8 {
                sign(p, maximizing) * 3
            } else {
                0
            }),
            CellState::Free => sequence_value(node.board.cells[i]@, maximizing) + sum_to(
                sequence_cells(node, maximizing, i),
                9,
            ),
            CellState::Tie => 0,
        }
}

/// The winning-sequence score of a game.
pub open spec fn winning_sequence_value(node: Morpion, maximizing: Player) -> int {
    match node.state {
        PlayingState::Continue => 2 * sequence_value(node.board.states@, maximizing) + sum_to(
            sequence_term(node, maximizing),
            9,
        ),
        _ => final_value(node.state, maximizing),
    }
}

/// The "everywhere" score: the winning-sequence score, and two for the
/// player to move when no sub-board is forced on them.
pub open spec fn everywhere_value(node: Morpion, maximizing: Player) -> int {
    winning_sequence_value(node, maximizing) + if node.focused_big_cell is None {
        sign(node.player, maximizing) * 2
    } else {
        0
    }
}

/// Multiplying by a player's sign keeps a value or negates it.
proof fn lemma_signed(p: Player, maximizing: Player, x: int)
    ensures
        sign(p, maximizing) * x == if p == maximizing { x } else { -x },
{
}

/// Determines the direction of evaluation for a given player.
/// Returns `1` if the actual player is the maximizing player, otherwise `-1`.
fn dir(actual_player: Player, maximizing_player: Player) -> (r: isize)
    ensures
        r == sign(actual_player, maximizing_player),
{
    if actual_player == maximizing_player {
        1
    } else {
        -1
    }
}

/// The per-cell weights of the center-favoring heuristic.
fn center_weights() -> (r: [isize; 9])
    ensures
        forall|i: int| 0 <= i < 9 ==> #[trigger] r[i] == center_weight(i),
{
    [40, 10, 40, 10, 45, 10, 40, 10, 40]
}

/// The per-cell weights of the corner-favoring heuristic.
fn corner_weights() -> (r: [isize; 9])
    ensures
        forall|i: int| 0 <= i < 9 ==> #[trigger] r[i] == corner_weight(i),
{
    [45, 10, 45, 10, 15, 10, 45, 10, 45]
}

/// The largest weight, in absolute value, that a weighted score can take
/// without overflowing an `isize`.
pub const WEIGHT_LIMIT: isize = 1_000_000;

/// The table `weights` holds the weights `w`, each at most `WEIGHT_LIMIT`
/// in absolute value.
pub open spec fn weights_match(weights: [isize; 9], w: spec_fn(int) -> int) -> bool {
    forall|i: int|
        0 <= i < 9 ==> #[trigger] weights[i] == w(i) && -WEIGHT_LIMIT <= w(i) <= WEIGHT_LIMIT
}

/// Evaluates a game state using a weighted heuristic based on the given
/// per-cell weights.
fn weighted_heuristic(
    node: &Morpion,
    maximizing_player: Player,
    weights: [isize; 9],
    Ghost(w): Ghost<spec_fn(int) -> int>,
) -> (r: isize)
    requires
        weights_match(weights, w),
    ensures
        r == weighted_value(*node, maximizing_player, w),
{
    let mut score: isize = 0;
    match node.state {
        PlayingState::Continue => {
            let mut big_cell_index: usize = 0;
            while big_cell_index < 9
                invariant
                    big_cell_index <= 9,
                    node.state == PlayingState::Continue,
                    weights_match(weights, w),
                    score == sum_to(
                        weighted_term(*node, maximizing_player, w),
                        big_cell_index as int,
                    ),
                    -50_000_000 * big_cell_index <= score <= 50_000_000 * big_cell_index,
                decreases 9 - big_cell_index,
            {
                let i = big_cell_index;
                match node.board.states[i] {
                    CellState::Occupied(player) => {
                        proof {
                            lemma_signed(player, maximizing_player, 50);
                            lemma_signed(player, maximizing_player, 50 * w(i as int));
                        }
                        score += dir(player, maximizing_player) * 50 * weights[i];
                    },
                    CellState::Tie => {},
                    CellState::Free => {
                        let ghost before = score;
                        let mut inner: isize = 0;
                        let mut lil_cell_index: usize = 0;
                        while lil_cell_index < 9
                            invariant
                                i < 9,
                                lil_cell_index <= 9,
                                weights_match(weights, w),
                                inner == sum_to(
                                    weighted_cells(*node, maximizing_player, w, i as int),
                                    lil_cell_index as int,
                                ),
                                -1_000_000 * lil_cell_index <= inner <= 1_000_000
                                    * lil_cell_index,
                            decreases 9 - lil_cell_index,
                        {
                            let j = lil_cell_index;
                            if let CellState::Occupied(player) = node.board.cells[i][j] {
                                proof {
                                    lemma_signed(player, maximizing_player, w(j as int));
                                }
                                inner += dir(player, maximizing_player) * weights[j];
                            }
                            lil_cell_index += 1;
                        }
                        score += inner;
                    },
                }
                big_cell_index += 1;
            }
        },
        PlayingState::Win(player) => {
            proof {
                lemma_signed(player, maximizing_player, WINNING_WEIGHT as int);
            }
            score += dir(player, maximizing_player) * WINNING_WEIGHT;
        },
        PlayingState::Tie => {},
    }
    score
}

/// Heuristic function that prioritizes the center of the board.
pub fn center_heuristic(node: &Morpion, maximizing_player: Player) -> (r: isize)
    ensures
        r == weighted_value(*node, maximizing_player, |i: int| center_weight(i)),
        -SCORE_BOUND <= r <= SCORE_BOUND,
{
    let r = weighted_heuristic(
        node,
        maximizing_player,
        center_weights(),
        Ghost(|i: int| center_weight(i)),
    );
    proof {
        lemma_heuristic_bound(Heuristic::Center, *node, maximizing_player);
    }
    r
}

/// Heuristic function that prioritizes the corners of the board.
pub fn corner_heuristic(node: &Morpion, maximizing_player: Player) -> (r: isize)
    ensures
        r == weighted_value(*node, maximizing_player, |i: int| corner_weight(i)),
        -SCORE_BOUND <= r <= SCORE_BOUND,
{
    let r = weighted_heuristic(
        node,
        maximizing_player,
        corner_weights(),
        Ghost(|i: int| corner_weight(i)),
    );
    proof {
        lemma_heuristic_bound(Heuristic::Corner, *node, maximizing_player);
    }
    r
}

/// The signed value of one cell for the winning-sequence count.
fn cell_mark(c: CellState, maximizing_player: Player) -> (r: isize)
    ensures
        r == mark_value(c, maximizing_player, 1),
        -1 <= r <= 1,
{
    match c {
        CellState::Occupied(player) => dir(player, maximizing_player),
        _ => 0,
    }
}

/// The value of the line `a`, `b`, `c`: its signed sum when that sum is even.
fn line_score(
    states: &[CellState; 9],
    maximizing_player: Player,
    a: usize,
    b: usize,
    c: usize,
) -> (r: isize)
    requires
        a < 9,
        b < 9,
        c < 9,
    ensures
        r == line_value(states@, maximizing_player, a as int, b as int, c as int),
        -2 <= r <= 2,
{
    proof {
        reveal(line_value);
    }
    let t = cell_mark(states[a], maximizing_player) + cell_mark(states[b], maximizing_player)
        + cell_mark(states[c], maximizing_player);
    if t % 2 == 0 {
        t
    } else {
        0
    }
}

/// Analyzes a 3x3 grid to find _winning sequences_: each row, column and
/// diagonal adds the sum of its signed marks when that sum is even, so two
/// unopposed marks of one player count twice their sign, and a line with a
/// single mark, or with marks of both players, counts nothing.
pub fn evaluate_winning_sequence(states: &[CellState; 9], maximizing_player: Player) -> (r: isize)
    ensures
        r == sequence_value(states@, maximizing_player),
        -16 <= r <= 16,
{
    proof {
        reveal(sequence_value);
    }
    let rows = line_score(states, maximizing_player, 0, 1, 2) + line_score(
        states,
        maximizing_player,
        3,
        4,
        5,
    ) + line_score(states, maximizing_player, 6, 7, 8);
    let columns = line_score(states, maximizing_player, 0, 3, 6) + line_score(
        states,
        maximizing_player,
        1,
        4,
        7,
    ) + line_score(states, maximizing_player, 2, 5, 8);
    let diagonals = line_score(states, maximizing_player, 0, 4, 8) + line_score(
        states,
        maximizing_player,
        2,
        4,
        6,
    );
    rows + columns + diagonals
}

/// Evaluates the game state based on winning sequences, on the super-board
/// and inside each open sub-board, with bonuses for won and central positions.
pub fn winning_sequence_heuristic(node: &Morpion, maximizing_player: Player) -> (r: isize)
    ensures
        r == winning_sequence_value(*node, maximizing_player),
        -WINNING_WEIGHT <= r <= WINNING_WEIGHT,
{
    let mut score: isize = 0;
    match node.state {
        PlayingState::Continue => {
            score += evaluate_winning_sequence(&node.board.states, maximizing_player) * 2;
            let mut big_cell_index: usize = 0;
            while big_cell_index < 9
                invariant
                    big_cell_index <= 9,
                    node.state == PlayingState::Continue,
                    score == 2 * sequence_value(node.board.states@, maximizing_player) + sum_to(
                        sequence_term(*node, maximizing_player),
                        big_cell_index as int,
                    ),
                    -32 - 70 * big_cell_index <= score <= 32 + 70 * big_cell_index,
                decreases 9 - big_cell_index,
            {
                let i = big_cell_index;
                match node.board.states[i] {
                    CellState::Occupied(player) => {
                        let dir = dir(player, maximizing_player);
                        score += dir * 5;
                        if i == 4 {
                            score += dir * 10;
                        } else if i == 0 || i == 2 || i == 6 || i == 8 {
                            score += dir * 3;
                        }
                    },
                    CellState::Free => {
                        score += evaluate_winning_sequence(&node.board.cells[i], maximizing_player);
                        let mut inner: isize = 0;
                        let mut lil_cell_index: usize = 0;
                        while lil_cell_index < 9
                            invariant
                                i < 9,
                                lil_cell_index <= 9,
                                inner == sum_to(
                                    sequence_cells(*node, maximizing_player, i as int),
                                    lil_cell_index as int,
                                ),
                                -6 * lil_cell_index <= inner <= 6 * lil_cell_index,
                            decreases 9 - lil_cell_index,
                        {
                            let j = lil_cell_index;
                            if let CellState::Occupied(player) = node.board.cells[i][j] {
                                let dir = dir(player, maximizing_player);
                                if j == 4 {
                                    inner += dir * 3;
                                }
                                if i == 4 {
                                    inner += dir * 3;
                                }
                            }
                            lil_cell_index += 1;
                        }
                        score += inner;
                    },
                    CellState::Tie => {},
                }
                big_cell_index += 1;
            }
        },
        PlayingState::Win(player) => {
            proof {
                lemma_signed(player, maximizing_player, WINNING_WEIGHT as int);
            }
            score += dir(player, maximizing_player) * WINNING_WEIGHT;
        },
        PlayingState::Tie => {},
    }
    score
}

/// A comprehensive heuristic: the winning-sequence score, and a bonus for
/// the player to move when no sub-board is forced on them.
pub fn everywhere_heuristic(node: &Morpion, maximizing_player: Player) -> (r: isize)
    ensures
        r == everywhere_value(*node, maximizing_player),
        -SCORE_BOUND <= r <= SCORE_BOUND,
{
    let mut score: isize = winning_sequence_heuristic(node, maximizing_player);
    if node.focused_big_cell.is_none() {
        score += dir(node.player, maximizing_player) * 2;
    }
    score
}

/// The static evaluations that the search can use at its leaves.
#[derive(Clone, Copy, PartialEq, Eq, Debug, Structural)]
pub enum Heuristic {
    /// Weighted positions, favoring the centers.
    Center,
    /// Weighted positions, favoring the corners.
    Corner,
    /// Partly built lines on both levels of the board.
    WinningSequence,
    /// Winning sequences, plus a bonus for freedom of choice.
    Everywhere,
}

/// The score that heuristic `h` gives `node` from `maximizing`'s side.
pub open spec fn heuristic_value(h: Heuristic, node: Morpion, maximizing: Player) -> int {
    match h {
        Heuristic::Center => weighted_value(node, maximizing, |i: int| center_weight(i)),
        Heuristic::Corner => weighted_value(node, maximizing, |i: int| corner_weight(i)),
        Heuristic::WinningSequence => winning_sequence_value(node, maximizing),
        Heuristic::Everywhere => everywhere_value(node, maximizing),
    }
}

impl Heuristic {
    /// Scores `node` from the maximizing player's side.
    pub fn evaluate(&self, node: &Morpion, maximizing_player: Player) -> (r: isize)
        ensures
            r == heuristic_value(*self, *node, maximizing_player),
            -SCORE_BOUND <= r <= SCORE_BOUND,
    {
        match self {
            Heuristic::Center => center_heuristic(node, maximizing_player),
            Heuristic::Corner => corner_heuristic(node, maximizing_player),
            Heuristic::WinningSequence => winning_sequence_heuristic(node, maximizing_player),
            Heuristic::Everywhere => everywhere_heuristic(node, maximizing_player),
        }
    }
}

/// A sum of `n` terms, each at most `b` in absolute value, is at most `n * b`.
proof fn lemma_sum_bound(f: spec_fn(int) -> int, n: int, b: int)
    requires
        0 <= n,
        0 <= b,
        forall|i: int| 0 <= i < n ==> -b <= #[trigger] f(i) <= b,
    ensures
        -n * b <= sum_to(f, n) <= n * b,
    decreases n,
{
    if n > 0 {
        lemma_sum_bound(f, n - 1, b);
        assert((n - 1) * b + b == n * b) by (nonlinear_arith);
        assert(-(n - 1) * b - b == -n * b) by (nonlinear_arith);
    } else {
        assert(n * b == 0 && -n * b == 0) by (nonlinear_arith)
            requires
                n == 0,
        ;
    }
}

/// A line is worth at most two in absolute value.
proof fn lemma_line_bound(s: Seq<CellState>, maximizing: Player, a: int, b: int, c: int)
    ensures
        -2 <= line_value(s, maximizing, a, b, c) <= 2,
{
    reveal(line_value);
    lemma_signed_mark(s[a], maximizing, 1);
    lemma_signed_mark(s[b], maximizing, 1);
    lemma_signed_mark(s[c], maximizing, 1);
}

/// The value of a marked cell is its weight or its opposite.
proof fn lemma_signed_mark(c: CellState, maximizing: Player, w: int)
    requires
        0 <= w,
    ensures
        -w <= mark_value(c, maximizing, w) <= w,
{
    if let CellState::Occupied(p) = c {
        lemma_signed(p, maximizing, w);
    }
}

/// A grid's winning-sequence score is at most sixteen in absolute value.
proof fn lemma_sequence_bound(s: Seq<CellState>, maximizing: Player)
    ensures
        -16 <= sequence_value(s, maximizing) <= 16,
{
    reveal(sequence_value);
    lemma_line_bound(s, maximizing, 0, 1, 2);
    lemma_line_bound(s, maximizing, 3, 4, 5);
    lemma_line_bound(s, maximizing, 6, 7, 8);
    lemma_line_bound(s, maximizing, 0, 3, 6);
    lemma_line_bound(s, maximizing, 1, 4, 7);
    lemma_line_bound(s, maximizing, 2, 5, 8);
    lemma_line_bound(s, maximizing, 0, 4, 8);
    lemma_line_bound(s, maximizing, 2, 4, 6);
}

/// Every heuristic score is at most `SCORE_BOUND` in absolute value.
pub proof fn lemma_heuristic_bound(h: Heuristic, node: Morpion, maximizing: Player)
    ensures
        -SCORE_BOUND <= heuristic_value(h, node, maximizing) <= SCORE_BOUND,
{
    if let PlayingState::Win(p) = node.state {
        lemma_signed(p, maximizing, WINNING_WEIGHT as int);
    }
    match h {
        Heuristic::Center => lemma_weighted_bound(node, maximizing, |i: int| center_weight(i)),
        Heuristic::Corner => lemma_weighted_bound(node, maximizing, |i: int| corner_weight(i)),
        _ => {
            lemma_winning_sequence_bound(node, maximizing);
            lemma_signed(node.player, maximizing, 2);
        },
    }
}

/// A weighted score of a game that goes on is within `SCORE_BOUND`.
proof fn lemma_weighted_bound(node: Morpion, maximizing: Player, w: spec_fn(int) -> int)
    requires
        forall|i: int| 0 <= i < 9 ==> 0 <= #[trigger] w(i) <= 45,
    ensures
        node.state == PlayingState::Continue ==> -SCORE_BOUND <= weighted_value(node, maximizing, w)
            <= SCORE_BOUND,
{
    let term = weighted_term(node, maximizing, w);
    assert forall|i: int| 0 <= i < 9 implies -2250 <= #[trigger] term(i) <= 2250 by {
        match node.board.states[i] {
            CellState::Occupied(p) => {
                let sp = sign(p, maximizing);
                assert(sp * 50 * w(i) == sp * (50 * w(i))) by (nonlinear_arith);
                lemma_signed(p, maximizing, 50 * w(i));
            },
            CellState::Free => {
                let cells = weighted_cells(node, maximizing, w, i);
                assert forall|j: int| 0 <= j < 9 implies -45 <= #[trigger] cells(j) <= 45 by {
                    lemma_signed_mark(node.board.cells[i][j], maximizing, w(j));
                }
                lemma_sum_bound(cells, 9, 45);
            },
            CellState::Tie => {},
        }
    }
    lemma_sum_bound(term, 9, 2250);
}

/// A winning-sequence score of a game that goes on is at most 700 in
/// absolute value.
proof fn lemma_winning_sequence_bound(node: Morpion, maximizing: Player)
    ensures
        node.state == PlayingState::Continue ==> -700 <= winning_sequence_value(node, maximizing)
            <= 700,
{
    let term = sequence_term(node, maximizing);
    assert forall|i: int| 0 <= i < 9 implies -70 <= #[trigger] term(i) <= 70 by {
        match node.board.states[i] {
            CellState::Occupied(p) => {
                lemma_signed(p, maximizing, 5);
                lemma_signed(p, maximizing, 10);
                lemma_signed(p, maximizing, 3);
            },
            CellState::Free => {
                let cells = sequence_cells(node, maximizing, i);
                assert forall|j: int| 0 <= j < 9 implies -6 <= #[trigger] cells(j) <= 6 by {
                    if let CellState::Occupied(p) = node.board.cells[i][j] {
                        lemma_signed(p, maximizing, 3);
                    }
                }
                lemma_sum_bound(cells, 9, 6);
                lemma_sequence_bound(node.board.cells[i]@, maximizing);
            },
            CellState::Tie => {},
        }
    }
    lemma_sum_bound(term, 9, 70);
    lemma_sequence_bound(node.board.states@, maximizing);
}

/// The children of `node` for the first `k` pairs (sub-board, cell) in
/// row-major order: the game after each legal move among them, in order.
pub open spec fn children_upto(node: Morpion, k: int) -> Seq<Morpion>
    decreases k,
{
    if k <= 0 {
        seq![]
    } else {
        let prev = children_upto(node, k - 1);
        if node.playable((k - 1) / 9, (k - 1) % 9) {
            prev.push(node.spec_play((k - 1) / 9, (k - 1) % 9))
        } else {
            prev
        }
    }
}

/// The legal moves of `node` among the first `k` pairs, in row-major order.
pub open spec fn moves_upto(node: Morpion, k: int) -> Seq<(int, int)>
    decreases k,
{
    if k <= 0 {
        seq![]
    } else {
        let prev = moves_upto(node, k - 1);
        if node.playable((k - 1) / 9, (k - 1) % 9) {
            prev.push(((k - 1) / 9, (k - 1) % 9))
        } else {
            prev
        }
    }
}

/// The children of `node`: the game after each of its legal moves.
pub open spec fn child_nodes(node: Morpion) -> Seq<Morpion> {
    children_upto(node, 81)
}

/// The legal moves of `node`, in row-major order of (sub-board, cell).
pub open spec fn legal_moves(node: Morpion) -> Seq<(int, int)> {
    moves_upto(node, 81)
}

/// Generates the game after each legal move of `node`, the moves taken in
/// row-major order of (sub-board, cell).
pub fn generate_children(node: &Morpion) -> (r: Vec<Morpion>)
    ensures
        r@ == child_nodes(*node),
{
    let mut children: Vec<Morpion> = Vec::new();
    let mut i: usize = 0;
    while i < 9
        invariant
            i <= 9,
            children@ == children_upto(*node, 9 * i),
        decreases 9 - i,
    {
        let mut j: usize = 0;
        while j < 9
            invariant
                i < 9,
                j <= 9,
                children@ == children_upto(*node, 9 * i + j),
            decreases 9 - j,
        {
            proof {
                assert((9 * i + j) / 9 == i as int && (9 * i + j) % 9 == j as int);
            }
            if node.index_is_playable(i, j) {
                let mut new_node = node.clone();
                new_node.play_at(i, j);
                children.push(new_node);
            }
            j += 1;
        }
        i += 1;
    }
    children
}

/// Terms that are opposite one by one have opposite sums.
proof fn lemma_sum_negated(f: spec_fn(int) -> int, g: spec_fn(int) -> int, n: int)
    requires
        forall|i: int| 0 <= i < n ==> #[trigger] g(i) == -f(i),
    ensures
        sum_to(g, n) == -sum_to(f, n),
    decreases n,
{
    if n > 0 {
        lemma_sum_negated(f, g, n - 1);
    }
}

/// A cell's value from the other player's side is the opposite.
proof fn lemma_mark_negated(c: CellState, maximizing: Player, w: int)
    ensures
        mark_value(c, maximizing.spec_other(), w) == -mark_value(c, maximizing, w),
{
    if let CellState::Occupied(p) = c {
        lemma_signed(p, maximizing, w);
        lemma_signed(p, maximizing.spec_other(), w);
    }
}

/// A line's value from the other player's side is the opposite.
proof fn lemma_line_negated(s: Seq<CellState>, maximizing: Player, a: int, b: int, c: int)
    ensures
        line_value(s, maximizing.spec_other(), a, b, c) == -line_value(s, maximizing, a, b, c),
{
    reveal(line_value);
    lemma_mark_negated(s[a], maximizing, 1);
    lemma_mark_negated(s[b], maximizing, 1);
    lemma_mark_negated(s[c], maximizing, 1);
    let t = line_sum(s, maximizing, a, b, c);
    assert((-t) % 2 == 0 <==> t % 2 == 0);
}

/// A grid's winning-sequence score from the other player's side is the
/// opposite.
proof fn lemma_sequence_negated(s: Seq<CellState>, maximizing: Player)
    ensures
        sequence_value(s, maximizing.spec_other()) == -sequence_value(s, maximizing),
{
    reveal(sequence_value);
    lemma_line_negated(s, maximizing, 0, 1, 2);
    lemma_line_negated(s, maximizing, 3, 4, 5);
    lemma_line_negated(s, maximizing, 6, 7, 8);
    lemma_line_negated(s, maximizing, 0, 3, 6);
    lemma_line_negated(s, maximizing, 1, 4, 7);
    lemma_line_negated(s, maximizing, 2, 5, 8);
    lemma_line_negated(s, maximizing, 0, 4, 8);
    lemma_line_negated(s, maximizing, 2, 4, 6);
}

/// Every heuristic is zero-sum: the score of a game from one player's side
/// is the opposite of its score from the other player's side.
pub proof fn lemma_heuristic_negated(h: Heuristic, node: Morpion, maximizing: Player)
    ensures
        heuristic_value(h, node, maximizing.spec_other()) == -heuristic_value(h, node, maximizing),
{
    let other = maximizing.spec_other();
    if let PlayingState::Win(p) = node.state {
        lemma_signed(p, maximizing, WINNING_WEIGHT as int);
        lemma_signed(p, other, WINNING_WEIGHT as int);
    }
    lemma_signed(node.player, maximizing, 2);
    lemma_signed(node.player, other, 2);
    match h {
        Heuristic::Center => lemma_weighted_negated(node, maximizing, |i: int| center_weight(i)),
        Heuristic::Corner => lemma_weighted_negated(node, maximizing, |i: int| corner_weight(i)),
        _ => lemma_winning_sequence_negated(node, maximizing),
    }
}

/// The weighted score from the other player's side is the opposite.
proof fn lemma_weighted_negated(node: Morpion, maximizing: Player, w: spec_fn(int) -> int)
    ensures
        weighted_value(node, maximizing.spec_other(), w) == -weighted_value(node, maximizing, w),
{
    let other = maximizing.spec_other();
    let f = weighted_term(node, maximizing, w);
    let g = weighted_term(node, other, w);
    assert forall|i: int| 0 <= i < 9 implies #[trigger] g(i) == -f(i) by {
        match node.board.states[i] {
            CellState::Occupied(p) => {
                let sp = sign(p, maximizing);
                let so = sign(p, other);
                assert(sp * 50 * w(i) == sp * (50 * w(i))) by (nonlinear_arith);
                assert(so * 50 * w(i) == so * (50 * w(i))) by (nonlinear_arith);
                lemma_signed(p, maximizing, 50 * w(i));
                lemma_signed(p, other, 50 * w(i));
            },
            CellState::Free => {
                let fc = weighted_cells(node, maximizing, w, i);
                let gc = weighted_cells(node, other, w, i);
                assert forall|j: int| 0 <= j < 9 implies #[trigger] gc(j) == -fc(j) by {
                    lemma_mark_negated(node.board.cells[i][j], maximizing, w(j));
                }
                lemma_sum_negated(fc, gc, 9);
            },
            CellState::Tie => {},
        }
    }
    lemma_sum_negated(f, g, 9);
    if let PlayingState::Win(p) = node.state {
        lemma_signed(p, maximizing, WINNING_WEIGHT as int);
        lemma_signed(p, other, WINNING_WEIGHT as int);
    }
}

/// The winning-sequence score from the other player's side is the opposite.
proof fn lemma_winning_sequence_negated(node: Morpion, maximizing: Player)
    ensures
        winning_sequence_value(node, maximizing.spec_other()) == -winning_sequence_value(
            node,
            maximizing,
        ),
{
    let other = maximizing.spec_other();
    let f = sequence_term(node, maximizing);
    let g = sequence_term(node, other);
    assert forall|i: int| 0 <= i < 9 implies #[trigger] g(i) == -f(i) by {
        match node.board.states[i] {
            CellState::Occupied(p) => {
                lemma_signed(p, maximizing, 5);
                lemma_signed(p, other, 5);
                lemma_signed(p, maximizing, 10);
                lemma_signed(p, other, 10);
                lemma_signed(p, maximizing, 3);
                lemma_signed(p, other, 3);
            },
            CellState::Free => {
                let fc = sequence_cells(node, maximizing, i);
                let gc = sequence_cells(node, other, i);
                assert forall|j: int| 0 <= j < 9 implies #[trigger] gc(j) == -fc(j) by {
                    if let CellState::Occupied(p) = node.board.cells[i][j] {
                        lemma_signed(p, maximizing, 3);
                        lemma_signed(p, other, 3);
                    }
                }
                lemma_sum_negated(fc, gc, 9);
                lemma_sequence_negated(node.board.cells[i]@, maximizing);
            },
            CellState::Tie => {},
        }
    }
    lemma_sum_negated(f, g, 9);
    lemma_sequence_negated(node.board.states@, maximizing);
    if let PlayingState::Win(p) = node.state {
        lemma_signed(p, maximizing, WINNING_WEIGHT as int);
        lemma_signed(p, other, WINNING_WEIGHT as int);
    }
}

/// The children of the first `k` pairs (sub-board, cell) are the games after
/// the legal moves among them, in row-major order, and every legal move
/// among them is there.
proof fn lemma_children_upto(node: Morpion, k: int)
    requires
        0 <= k <= 81,
    ensures
        children_upto(node, k).len() == moves_upto(node, k).len(),
        forall|t: int|
            0 <= t < moves_upto(node, k).len() ==> {
                let (sub, cell) = #[trigger] moves_upto(node, k)[t];
                &&& node.playable(sub, cell)
                &&& 9 * sub + cell < k
                &&& children_upto(node, k)[t] == node.spec_play(sub, cell)
            },
        forall|t1: int, t2: int|
            0 <= t1 < t2 < moves_upto(node, k).len() ==> 9 * (#[trigger] moves_upto(node, k)[t1]).0
                + moves_upto(node, k)[t1].1 < 9 * (#[trigger] moves_upto(node, k)[t2]).0
                + moves_upto(node, k)[t2].1,
        forall|sub: int, cell: int|
            #![trigger node.playable(sub, cell)]
            node.playable(sub, cell) && 9 * sub + cell < k ==> moves_upto(node, k).contains(
                (sub, cell),
            ),
    decreases k,
{
    if k > 0 {
        lemma_children_upto(node, k - 1);
        let prev = moves_upto(node, k - 1);
        let last = ((k - 1) / 9, (k - 1) % 9);
        assert(9 * last.0 + last.1 == k - 1);
        assert forall|sub: int, cell: int|
            #![trigger node.playable(sub, cell)]
            node.playable(sub, cell) && 9 * sub + cell < k implies moves_upto(node, k).contains(
            (sub, cell),
        ) by {
            if 9 * sub + cell == k - 1 {
                assert(sub == last.0 && cell == last.1);
                assert(moves_upto(node, k).last() == (sub, cell));
            } else {
                let t = choose|t: int| 0 <= t < prev.len() && prev[t] == (sub, cell);
                assert(moves_upto(node, k)[t] == (sub, cell));
            }
        }
    }
}

/// The children of a game are exactly the games after each of its legal
/// moves: the moves are legal, come in row-major order of (sub-board, cell),
/// each child is its parent after its move, and no legal move is missing.
pub proof fn lemma_children_are_legal_moves(node: Morpion)
    ensures
        child_nodes(node).len() == legal_moves(node).len(),
        forall|t: int|
            0 <= t < legal_moves(node).len() ==> {
                let (sub, cell) = #[trigger] legal_moves(node)[t];
                &&& node.playable(sub, cell)
                &&& child_nodes(node)[t] == node.spec_play(sub, cell)
            },
        forall|t1: int, t2: int|
            0 <= t1 < t2 < legal_moves(node).len() ==> 9 * (#[trigger] legal_moves(node)[t1]).0
                + legal_moves(node)[t1].1 < 9 * (#[trigger] legal_moves(node)[t2]).0
                + legal_moves(node)[t2].1,
        forall|sub: int, cell: int|
            #![trigger node.playable(sub, cell)]
            node.playable(sub, cell) ==> legal_moves(node).contains((sub, cell)),
{
    lemma_children_upto(node, 81);
}

/// A game that satisfies the invariant and goes on has children, and each
/// of them satisfies the invariant.
pub proof fn lemma_children_wf(node: Morpion)
    requires
        node.wf(),
        node.state == PlayingState::Continue,
    ensures
        child_nodes(node).len() > 0,
        forall|t: int| 0 <= t < child_nodes(node).len() ==> (#[trigger] child_nodes(node)[t]).wf(),
{
    lemma_children_are_legal_moves(node);
    lemma_has_move(node);
    let (sub, cell) = choose|sub: int, cell: int| node.playable(sub, cell);
    assert(legal_moves(node).contains((sub, cell)));
    assert forall|t: int| 0 <= t < child_nodes(node).len() implies (
    #[trigger] child_nodes(node)[t]).wf() by {
        let (s, c) = legal_moves(node)[t];
        lemma_play_wf(node, s, c);
    }
}

/// The value of a leaf of the search: the heuristic's score, times the
/// depth left plus one where the search scales its leaves.
pub open spec fn leaf_value(
    node: Morpion,
    depth: nat,
    maximizing: Player,
    h: Heuristic,
    scaled: bool,
) -> int {
    if scaled {
        heuristic_value(h, node, maximizing) * (depth + 1)
    } else {
        heuristic_value(h, node, maximizing)
    }
}

/// The value of the depth-bounded game tree below `node`: the leaf value
/// where the game is over or no depth is left; otherwise the largest value
/// of a child when the maximizing player moves, and the smallest otherwise.
pub open spec fn search_value(
    node: Morpion,
    depth: nat,
    maximizing: Player,
    h: Heuristic,
    scaled: bool,
) -> int
    decreases depth, 1int, 0int,
{
    if node.state != PlayingState::Continue || depth == 0 {
        leaf_value(node, depth, maximizing, h, scaled)
    } else {
        fold_children(
            child_nodes(node),
            child_nodes(node).len(),
            depth,
            maximizing,
            h,
            scaled,
            node.player == maximizing,
        )
    }
}

/// The largest (`maximize`) or smallest value of the first `n` nodes of
/// `cs` searched `depth - 1` deep, starting from the smallest (or largest)
/// `isize`.
pub open spec fn fold_children(
    cs: Seq<Morpion>,
    n: nat,
    depth: nat,
    maximizing: Player,
    h: Heuristic,
    scaled: bool,
    maximize: bool,
) -> int
    decreases depth, 0int, n,
{
    if n == 0 || depth == 0 {
        if maximize {
            isize::MIN as int
        } else {
            isize::MAX as int
        }
    } else {
        let v = search_value(cs[n - 1], (depth - 1) as nat, maximizing, h, scaled);
        let r = fold_children(cs, (n - 1) as nat, depth, maximizing, h, scaled, maximize);
        if maximize {
            if v > r {
                v
            } else {
                r
            }
        } else {
            if v < r {
                v
            } else {
                r
            }
        }
    }
}

/// Implements the _Minimax algorithm_: the best score that `maximizing_player`
/// can force within `depth` moves, by the heuristic's scores at the leaves.
pub fn minimax(
    node: &Morpion,
    depth: isize,
    maximizing_player: Player,
    heuristic: Heuristic,
) -> (r: isize)
    requires
        depth >= 0,
    ensures
        r == search_value(*node, depth as nat, maximizing_player, heuristic, false),
    decreases depth,
{
    if node.state != PlayingState::Continue || depth == 0 {
        return heuristic.evaluate(node, maximizing_player);
    }
    let children = generate_children(node);
    let maximize = node.player == maximizing_player;
    let mut value: isize = if maximize {
        isize::MIN
    } else {
        isize::MAX
    };
    let mut k: usize = 0;
    while k < children.len()
        invariant
            depth > 0,
            k <= children@.len(),
            children@ == child_nodes(*node),
            value == fold_children(
                children@,
                k as nat,
                depth as nat,
                maximizing_player,
                heuristic,
                false,
                maximize,
            ),
        decreases children@.len() - k,
    {
        let v = minimax(&children[k], depth - 1, maximizing_player, heuristic);
        if maximize {
            if v > value {
                value = v;
            }
        } else {
            if v < value {
                value = v;
            }
        }
        k += 1;
    }
    value
}

/// Within the depth that the bound allows, every search value fits in an
/// `isize`.
pub proof fn lemma_search_range(
    node: Morpion,
    depth: nat,
    maximizing: Player,
    h: Heuristic,
    scaled: bool,
)
    requires
        (depth + 1) * SCORE_BOUND <= isize::MAX,
    ensures
        isize::MIN <= search_value(node, depth, maximizing, h, scaled) <= isize::MAX,
    decreases depth, 1int, 0int,
{
    if node.state != PlayingState::Continue || depth == 0 {
        let hv = heuristic_value(h, node, maximizing);
        lemma_heuristic_bound(h, node, maximizing);
        assert(-(depth + 1) * SCORE_BOUND <= hv * (depth + 1) <= (depth + 1) * SCORE_BOUND)
            by (nonlinear_arith)
            requires
                -SCORE_BOUND <= hv <= SCORE_BOUND,
                depth >= 0,
        ;
    } else {
        let cs = child_nodes(node);
        lemma_fold_range(cs, cs.len(), depth, maximizing, h, scaled, node.player == maximizing);
    }
}

/// Folds of search values that fit in an `isize` fit in an `isize`.
proof fn lemma_fold_range(
    cs: Seq<Morpion>,
    n: nat,
    depth: nat,
    maximizing: Player,
    h: Heuristic,
    scaled: bool,
    maximize: bool,
)
    requires
        n <= cs.len(),
        (depth + 1) * SCORE_BOUND <= isize::MAX,
    ensures
        isize::MIN <= fold_children(cs, n, depth, maximizing, h, scaled, maximize) <= isize::MAX,
    decreases depth, 0int, n,
{
    if n > 0 && depth > 0 {
        lemma_search_range(cs[n - 1], (depth - 1) as nat, maximizing, h, scaled);
        lemma_fold_range(cs, (n - 1) as nat, depth, maximizing, h, scaled, maximize);
    }
}

/// The search is zero-sum on a game that satisfies the invariant: its value
/// from one player's side is the opposite of its value from the other
/// player's side, with or without the scaling of the leaves (and it stays
/// within `isize::MAX` in absolute value).
pub proof fn lemma_search_negated(
    node: Morpion,
    depth: nat,
    maximizing: Player,
    h: Heuristic,
    scaled: bool,
)
    requires
        node.wf(),
        (depth + 1) * SCORE_BOUND <= isize::MAX,
    ensures
        search_value(node, depth, maximizing.spec_other(), h, scaled) == -search_value(
            node,
            depth,
            maximizing,
            h,
            scaled,
        ),
        -isize::MAX <= search_value(node, depth, maximizing, h, scaled) <= isize::MAX,
    decreases depth, 1int, 0int,
{
    let other = maximizing.spec_other();
    if node.state != PlayingState::Continue || depth == 0 {
        let hv = heuristic_value(h, node, maximizing);
        lemma_heuristic_negated(h, node, maximizing);
        lemma_heuristic_bound(h, node, maximizing);
        assert((-hv) * (depth + 1) == -(hv * (depth + 1))) by (nonlinear_arith);
        assert(-(depth + 1) * SCORE_BOUND <= hv * (depth + 1) <= (depth + 1) * SCORE_BOUND)
            by (nonlinear_arith)
            requires
                -SCORE_BOUND <= hv <= SCORE_BOUND,
                depth >= 0,
        ;
    } else {
        let cs = child_nodes(node);
        lemma_children_wf(node);
        lemma_fold_negated(cs, cs.len(), depth, maximizing, h, scaled, node.player == maximizing);
    }
}

/// Folds of the children of a game that satisfies the invariant are
/// zero-sum too, the maximum from one side being the opposite of the
/// minimum from the other.
proof fn lemma_fold_negated(
    cs: Seq<Morpion>,
    n: nat,
    depth: nat,
    maximizing: Player,
    h: Heuristic,
    scaled: bool,
    maximize: bool,
)
    requires
        1 <= n <= cs.len(),
        depth >= 1,
        forall|t: int| 0 <= t < cs.len() ==> (#[trigger] cs[t]).wf(),
        (depth + 1) * SCORE_BOUND <= isize::MAX,
    ensures
        fold_children(cs, n, depth, maximizing.spec_other(), h, scaled, !maximize)
            == -fold_children(cs, n, depth, maximizing, h, scaled, maximize),
        -isize::MAX <= fold_children(cs, n, depth, maximizing, h, scaled, maximize)
            <= isize::MAX,
    decreases depth, 0int, n,
{
    let other = maximizing.spec_other();
    let d = (depth - 1) as nat;
    lemma_search_negated(cs[n - 1], d, maximizing, h, scaled);
    let v = search_value(cs[n - 1], d, maximizing, h, scaled);
    assert(search_value(cs[n - 1], d, other, h, scaled) == -v);
    assert(isize::MIN < -isize::MAX);
    let m = (n - 1) as nat;
    if m > 0 {
        lemma_fold_negated(cs, m, depth, maximizing, h, scaled, maximize);
    } else {
        assert(fold_children(cs, m, depth, maximizing, h, scaled, maximize) == if maximize {
            isize::MIN as int
        } else {
            isize::MAX as int
        });
        assert(fold_children(cs, m, depth, other, h, scaled, !maximize) == if !maximize {
            isize::MIN as int
        } else {
            isize::MAX as int
        });
    }
}

/// Taking more children into the fold only raises a maximum, and only
/// lowers a minimum.
proof fn lemma_fold_monotone(
    cs: Seq<Morpion>,
    k: nat,
    n: nat,
    depth: nat,
    maximizing: Player,
    h: Heuristic,
    scaled: bool,
    maximize: bool,
)
    requires
        k <= n <= cs.len(),
    ensures
        maximize ==> fold_children(cs, k, depth, maximizing, h, scaled, maximize) <= fold_children(
            cs,
            n,
            depth,
            maximizing,
            h,
            scaled,
            maximize,
        ),
        !maximize ==> fold_children(cs, k, depth, maximizing, h, scaled, maximize)
            >= fold_children(cs, n, depth, maximizing, h, scaled, maximize),
    decreases n,
{
    if k < n {
        lemma_fold_monotone(cs, k, (n - 1) as nat, depth, maximizing, h, scaled, maximize);
    }
}

/// Implements _Alpha-Beta pruning_ for the minimax search.
///
/// Unlike [`minimax`], this search multiplies the heuristic's score at each
/// leaf by the depth left plus one: a win found with more depth left (that
/// is, sooner) weighs more, and a loss found sooner weighs more against.
/// This is a deliberate choice of this search; where no game ends before
/// the depth runs out, every leaf has no depth left and the two searches
/// agree (see `lemma_alpha_beta_agrees_with_minimax`).
///
/// At a leaf (a finished game, or no depth left) the result is that scaled
/// score, whatever the window. Otherwise, inside the window (`alpha`,
/// `beta`) the result is the value of the search; at or below `alpha` it
/// bounds that value from above, at or above `beta` from below. With the
/// full window it is the value of the search.
pub fn alpha_beta(
    node: &Morpion,
    depth: isize,
    alpha: isize,
    beta: isize,
    maximizing_player: Player,
    heuristic: Heuristic,
) -> (r: isize)
    requires
        depth >= 0,
        (depth + 1) * SCORE_BOUND <= isize::MAX,
    ensures
        node.state != PlayingState::Continue || depth == 0 ==> r == heuristic_value(
            heuristic,
            *node,
            maximizing_player,
        ) * (depth + 1),
        ({
            let v = search_value(*node, depth as nat, maximizing_player, heuristic, true);
            alpha <= beta ==> {
                &&& r <= alpha ==> v <= r
                &&& r >= beta ==> v >= r
                &&& alpha < r < beta ==> r == v
            }
        }),
        alpha == isize::MIN && beta == isize::MAX ==> r == search_value(
            *node,
            depth as nat,
            maximizing_player,
            heuristic,
            true,
        ),
    decreases depth,
{
    proof {
        lemma_search_range(*node, depth as nat, maximizing_player, heuristic, true);
    }
    if node.state != PlayingState::Continue || depth == 0 {
        let hv = heuristic.evaluate(node, maximizing_player);
        proof {
            assert(-(depth + 1) * SCORE_BOUND <= hv * (depth + 1) <= (depth + 1) * SCORE_BOUND)
                by (nonlinear_arith)
                requires
                    -SCORE_BOUND <= hv <= SCORE_BOUND,
                    depth >= 0,
            ;
        }
        return hv * (depth + 1);
    }
    let children = generate_children(node);
    let ghost cs = children@;
    let ghost d = depth as nat;
    if node.player == maximizing_player {
        let mut value: isize = isize::MIN;
        let mut a: isize = alpha;
        let mut k: usize = 0;
        while k < children.len()
            invariant
                depth > 0,
                (depth + 1) * SCORE_BOUND <= isize::MAX,
                d == depth as nat,
                k <= cs.len(),
                children@ == cs,
                cs == child_nodes(*node),
                node.state == PlayingState::Continue,
                node.player == maximizing_player,
                a == if value > alpha {
                    value
                } else {
                    alpha
                },
                value <= beta,
                alpha <= beta ==> {
                    let big = fold_children(
                        cs,
                        k as nat,
                        d,
                        maximizing_player,
                        heuristic,
                        true,
                        true,
                    );
                    &&& value < beta ==> big <= value
                    &&& value <= alpha ==> big <= value
                    &&& value >= beta ==> big >= value
                    &&& alpha < value < beta ==> big >= value
                },
            decreases cs.len() - k,
        {
            let rv = alpha_beta(&children[k], depth - 1, a, beta, maximizing_player, heuristic);
            if rv > value {
                value = rv;
            }
            k += 1;
            if value > beta {
                proof {
                    let n = cs.len();
                    lemma_fold_monotone(cs, k as nat, n, d, maximizing_player, heuristic, true, true);
                    assert(search_value(*node, d, maximizing_player, heuristic, true)
                        == fold_children(cs, n, d, maximizing_player, heuristic, true, true));
                }
                return value;
            }
            if value > a {
                a = value;
            }
        }
        value
    } else {
        let mut value: isize = isize::MAX;
        let mut b: isize = beta;
        let mut k: usize = 0;
        while k < children.len()
            invariant
                depth > 0,
                (depth + 1) * SCORE_BOUND <= isize::MAX,
                d == depth as nat,
                k <= cs.len(),
                children@ == cs,
                cs == child_nodes(*node),
                node.state == PlayingState::Continue,
                node.player != maximizing_player,
                b == if value < beta {
                    value
                } else {
                    beta
                },
                value >= alpha,
                alpha <= beta ==> {
                    let small = fold_children(
                        cs,
                        k as nat,
                        d,
                        maximizing_player,
                        heuristic,
                        true,
                        false,
                    );
                    &&& value > alpha ==> small >= value
                    &&& value >= beta ==> small >= value
                    &&& value <= alpha ==> small <= value
                    &&& alpha < value < beta ==> small <= value
                },
            decreases cs.len() - k,
        {
            let rv = alpha_beta(&children[k], depth - 1, alpha, b, maximizing_player, heuristic);
            if rv < value {
                value = rv;
            }
            k += 1;
            if value < alpha {
                proof {
                    let n = cs.len();
                    lemma_fold_monotone(cs, k as nat, n, d, maximizing_player, heuristic, true, false);
                    assert(search_value(*node, d, maximizing_player, heuristic, true)
                        == fold_children(cs, n, d, maximizing_player, heuristic, true, false));
                }
                return value;
            }
            if value < b {
                b = value;
            }
        }
        value
    }
}

/// A search with no depth left scores a game with the heuristic alone,
/// with or without the scaling of the leaves.
pub proof fn lemma_depth_zero(node: Morpion, maximizing: Player, h: Heuristic)
    ensures
        search_value(node, 0, maximizing, h, false) == heuristic_value(h, node, maximizing),
        search_value(node, 0, maximizing, h, true) == heuristic_value(h, node, maximizing),
{
    let hv = heuristic_value(h, node, maximizing);
    assert(hv * (0nat + 1) == hv) by (nonlinear_arith);
    assert(leaf_value(node, 0, maximizing, h, true) == hv);
}

/// True iff the search from `node` with `depth` left meets a finished game
/// while some depth is still left, where the scaled and the plain leaf
/// values differ.
pub open spec fn ends_before_depth(node: Morpion, depth: nat) -> bool
    decreases depth, 1int, 0int,
{
    depth > 0 && (node.state != PlayingState::Continue || some_child_ends(
        child_nodes(node),
        child_nodes(node).len(),
        depth,
    ))
}

/// True iff the search from one of the first `n` nodes of `cs`, with
/// `depth - 1` left, meets a finished game while some depth is still left.
pub open spec fn some_child_ends(cs: Seq<Morpion>, n: nat, depth: nat) -> bool
    decreases depth, 0int, n,
{
    n > 0 && depth > 0 && (ends_before_depth(cs[n - 1], (depth - 1) as nat) || some_child_ends(
        cs,
        (n - 1) as nat,
        depth,
    ))
}

/// Alpha-beta and plain minimax give the same score to a game whose search
/// meets no finished game before its depth runs out: the search with scaled
/// leaves, which alpha-beta computes for the full window, then agrees with
/// the plain one, which minimax computes.
pub proof fn lemma_alpha_beta_agrees_with_minimax(
    node: Morpion,
    depth: nat,
    maximizing: Player,
    h: Heuristic,
)
    requires
        !ends_before_depth(node, depth),
    ensures
        search_value(node, depth, maximizing, h, true) == search_value(
            node,
            depth,
            maximizing,
            h,
            false,
        ),
    decreases depth, 1int, 0int,
{
    if depth == 0 {
        lemma_depth_zero(node, maximizing, h);
    } else {
        let cs = child_nodes(node);
        lemma_folds_agree(cs, cs.len(), depth, maximizing, h, node.player == maximizing);
    }
}

/// Folds agree when none of the searches they take meets an early end.
proof fn lemma_folds_agree(
    cs: Seq<Morpion>,
    n: nat,
    depth: nat,
    maximizing: Player,
    h: Heuristic,
    maximize: bool,
)
    requires
        n <= cs.len(),
        !some_child_ends(cs, n, depth),
    ensures
        fold_children(cs, n, depth, maximizing, h, true, maximize) == fold_children(
            cs,
            n,
            depth,
            maximizing,
            h,
            false,
            maximize,
        ),
    decreases depth, 0int, n,
{
    if n > 0 && depth > 0 {
        lemma_alpha_beta_agrees_with_minimax(cs[n - 1], (depth - 1) as nat, maximizing, h);
        lemma_folds_agree(cs, (n - 1) as nat, depth, maximizing, h, maximize);
    }
}

/// Generates a random noise value in `-range..range`.
/// Relies on rand's `rng()` and `Rng::random_range`, which draws a value of
/// the half-open range and panics only on an empty one.
#[verifier::external_body]
pub fn noise(range: i32) -> (r: isize)
    requires
        range > 0,
    ensures
        -range <= r < range,
{
    let mut rng = rand::rng();
    rng.random_range(-range..range) as isize
}

/// The search score of a child for the player who moves into it, at a level.
pub open spec fn level_score(child: Morpion, level: AILevel, mover: Player) -> int {
    search_value(child, level_depth(level) as nat, mover, level_heuristic(level), true)
}

/// The scores that rank the children `cs`: eleven times the search score,
/// plus the noise drawn for that child.
pub open spec fn ranking_scores(
    cs: Seq<Morpion>,
    level: AILevel,
    mover: Player,
    noise: Seq<isize>,
) -> Seq<int> {
    Seq::new(cs.len(), |k: int| 11 * level_score(cs[k], level, mover) + noise[k])
}

/// The index and value of the first strictly largest of the first `n`
/// scores, where scores must beat the smallest `isize` to count.
pub open spec fn best_upto(scores: Seq<int>, n: nat) -> (int, int)
    decreases n,
{
    if n == 0 {
        (0, isize::MIN as int)
    } else {
        let (i, m) = best_upto(scores, (n - 1) as nat);
        if scores[n - 1] > m {
            (n - 1, scores[n - 1])
        } else {
            (i, m)
        }
    }
}

/// The child that the AI picks at `level` with the given noise: the first
/// child of best ranking score.
pub open spec fn ai_choice(node: Morpion, level: AILevel, noise: Seq<isize>) -> Morpion {
    let cs = child_nodes(node);
    cs[best_upto(ranking_scores(cs, level, node.player, noise), cs.len()).0]
}

/// The best index is one of the scores taken.
proof fn lemma_best_in_range(scores: Seq<int>, n: nat)
    ensures
        n > 0 ==> 0 <= best_upto(scores, n).0 < n,
        n == 0 ==> best_upto(scores, n).0 == 0,
    decreases n,
{
    if n > 0 {
        lemma_best_in_range(scores, (n - 1) as nat);
    }
}

/// The index of the child of best ranking score, with the search run at
/// `ai_level` for `player` and `noise[k]` added to the score of child `k`.
fn best_child_index(
    children: &Vec<Morpion>,
    ai_level: AILevel,
    player: Player,
    noise: &Vec<isize>,
) -> (r: usize)
    requires
        children@.len() > 0,
        noise@.len() >= children@.len(),
    ensures
        r < children@.len(),
        r == best_upto(ranking_scores(children@, ai_level, player, noise@), children@.len()).0,
{
    let depth = ai_level.search_depth();
    let heuristic = ai_level.heuristic();
    let ghost scores = ranking_scores(children@, ai_level, player, noise@);
    let mut best_move_index: usize = 0;
    let mut max_score: i128 = isize::MIN as i128;
    let mut index: usize = 0;
    while index < children.len()
        invariant
            index <= children@.len(),
            noise@.len() >= children@.len(),
            depth == level_depth(ai_level),
            heuristic == level_heuristic(ai_level),
            scores == ranking_scores(children@, ai_level, player, noise@),
            (best_move_index as int, max_score as int) == best_upto(scores, index as nat),
        decreases children@.len() - index,
    {
        let score = alpha_beta(&children[index], depth, isize::MIN, isize::MAX, player, heuristic);
        let score = (score as i128) * 11 + (noise[index] as i128);
        if score > max_score {
            max_score = score;
            best_move_index = index;
        }
        index += 1;
    }
    proof {
        lemma_best_in_range(scores, children@.len());
    }
    best_move_index
}

impl Morpion {
    /// Computes the AI's move at `ai_level` with the given noise, `noise[k]`
    /// being added to the ranking score of the `k`-th child: the first child
    /// of best ranking score, the ranking score being eleven times the
    /// alpha-beta score of the child for the player to move.
    /// The game must have a legal move, as every game that goes on has. The
    /// result depends on the game, the level and the noise alone: with no
    /// noise (all zeros) the same game and level always give the same move.
    pub fn ai_move_with_noise(&self, ai_level: AILevel, noise: &Vec<isize>) -> (r: Self)
        requires
            child_nodes(*self).len() > 0,
            noise@.len() >= child_nodes(*self).len(),
        ensures
            r == ai_choice(*self, ai_level, noise@),
    {
        let children = generate_children(self);
        let best = best_child_index(&children, ai_level, self.player, noise);
        children[best].clone()
    }

    /// Computes the next AI move at the given level: draws a noise in `-2..2`
    /// for each child and makes the move that [`Morpion::ai_move_with_noise`]
    /// picks with that noise. The game must have a legal move, as every game
    /// that goes on has.
    pub fn ai_move(&self, ai_level: AILevel) -> (r: Self)
        requires
            child_nodes(*self).len() > 0,
        ensures
            child_nodes(*self).contains(r),
            self.wf() && self.state == PlayingState::Continue ==> r.wf(),
            exists|noise: Seq<isize>|
                {
                    &&& noise.len() == child_nodes(*self).len()
                    &&& forall|k: int| 0 <= k < noise.len() ==> -2 <= #[trigger] noise[k] < 2
                    &&& r == ai_choice(*self, ai_level, noise)
                },
    {
        let count = generate_children(self).len();
        let mut noises: Vec<isize> = Vec::new();
        let mut k: usize = 0;
        while k < count
            invariant
                k <= count,
                count == child_nodes(*self).len(),
                noises@.len() == k,
                forall|t: int| 0 <= t < k ==> -2 <= #[trigger] noises@[t] < 2,
            decreases count - k,
        {
            noises.push(noise(2));
            k += 1;
        }
        let r = self.ai_move_with_noise(ai_level, &noises);
        proof {
            lemma_ai_choice_is_child(*self, ai_level, noises@);
            if self.wf() && self.state == PlayingState::Continue {
                lemma_children_wf(*self);
            }
        }
        r
    }
}

/// The AI's choice is one of the children of the game. No child ranks
/// above it, and, where its ranking score beats the smallest `isize`, every
/// child before it ranks strictly below it.
pub proof fn lemma_ai_choice_is_child(node: Morpion, level: AILevel, noise: Seq<isize>)
    requires
        child_nodes(node).len() > 0,
        noise.len() >= child_nodes(node).len(),
    ensures
        child_nodes(node).contains(ai_choice(node, level, noise)),
        ({
            let cs = child_nodes(node);
            let scores = ranking_scores(cs, level, node.player, noise);
            let (best, top) = best_upto(scores, cs.len());
            &&& forall|k: int| 0 <= k < cs.len() ==> #[trigger] scores[k] <= top
            &&& top > isize::MIN ==> {
                &&& scores[best] == top
                &&& forall|k: int| 0 <= k < best ==> #[trigger] scores[k] < top
            }
        }),
{
    let cs = child_nodes(node);
    let scores = ranking_scores(cs, level, node.player, noise);
    lemma_best_in_range(scores, cs.len());
    lemma_best_is_first_largest(scores, cs.len());
}

/// The best of the first `n` scores is at least each of them, and, where it
/// beats the smallest `isize`, it is the score at its index and every
/// earlier score is strictly smaller.
proof fn lemma_best_is_first_largest(scores: Seq<int>, n: nat)
    requires
        n <= scores.len(),
    ensures
        ({
            let (best, top) = best_upto(scores, n);
            &&& forall|k: int| 0 <= k < n ==> #[trigger] scores[k] <= top
            &&& top > isize::MIN ==> {
                &&& scores[best] == top
                &&& forall|k: int| 0 <= k < best ==> #[trigger] scores[k] < top
            }
        }),
    decreases n,
{
    if n > 0 {
        lemma_best_is_first_largest(scores, (n - 1) as nat);
        lemma_best_in_range(scores, (n - 1) as nat);
    }
}

} // verus!
