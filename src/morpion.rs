use vstd::array::{spec_array_fill_for_copy_type, spec_array_update};
use vstd::prelude::*;
use vstd::string::StringExecFns;

verus! {

/// A player of the game (either `X` or `O`).
#[derive(Clone, Copy, PartialEq, Eq, Debug, Structural)]
pub enum Player {
    X,
    O,
}

impl Player {
    pub open spec fn spec_other(self) -> Player {
        match self {
            Player::X => Player::O,
            Player::O => Player::X,
        }
    }

    /// Switches the player (`X` --> `O` and `O` --> `X`).
    pub fn other(&self) -> (r: Player)
        ensures
            r == self.spec_other(),
    {
        match self {
            Player::X => Player::O,
            Player::O => Player::X,
        }
    }
}

/// The text of a player: `X` or `O`.
pub open spec fn player_text(p: Player) -> Seq<char> {
    match p {
        Player::X => "X"@,
        Player::O => "O"@,
    }
}

impl Player {
    /// The player's symbol as text.
    pub fn to_string(&self) -> (r: String)
        ensures
            r@ == player_text(*self),
    {
        match self {
            Player::X => String::from_str("X"),
            Player::O => String::from_str("O"),
        }
    }
}

/// The text of a cell: the symbol of the player who marked it, `*` for a
/// free cell, nothing for a tied sub-board.
pub open spec fn cell_text(c: CellState) -> Seq<char> {
    match c {
        CellState::Occupied(p) => player_text(p),
        CellState::Free => "*"@,
        CellState::Tie => ""@,
    }
}

impl CellState {
    /// The cell's symbol as text.
    pub fn to_string(&self) -> (r: String)
        ensures
            r@ == cell_text(*self),
    {
        match self {
            CellState::Occupied(player) => player.to_string(),
            CellState::Free => String::from_str("*"),
            CellState::Tie => String::from_str(""),
        }
    }
}

/// The state of a cell: a mark of a player, free, or (for a whole
/// sub-board) tied.
#[derive(Clone, Copy, PartialEq, Eq, Debug, Structural)]
pub enum CellState {
    Occupied(Player),
    Free,
    Tie,
}

/// True iff the three slots `a`, `b`, `c` of `s` are all marked by `p`.
pub open spec fn line_owned(s: Seq<CellState>, p: Player, a: int, b: int, c: int) -> bool {
    &&& s[a] == CellState::Occupied(p)
    &&& s[b] == CellState::Occupied(p)
    &&& s[c] == CellState::Occupied(p)
}

/// True iff `p` owns one of the eight lines (three rows, three columns,
/// two diagonals) of the 3x3 grid `s`.
pub open spec fn won_by(s: Seq<CellState>, p: Player) -> bool {
    ||| line_owned(s, p, 0, 1, 2)
    ||| line_owned(s, p, 3, 4, 5)
    ||| line_owned(s, p, 6, 7, 8)
    ||| line_owned(s, p, 0, 3, 6)
    ||| line_owned(s, p, 1, 4, 7)
    ||| line_owned(s, p, 2, 5, 8)
    ||| line_owned(s, p, 0, 4, 8)
    ||| line_owned(s, p, 2, 4, 6)
}

/// True iff no slot of the grid is `Free`.
pub open spec fn filled(s: Seq<CellState>) -> bool {
    forall|i: int| 0 <= i < 9 ==> #[trigger] s[i] != CellState::Free
}

/// The aggregate state that a sub-board with cells `s` stands for.
pub open spec fn sub_state(s: Seq<CellState>) -> CellState {
    if won_by(s, Player::X) {
        CellState::Occupied(Player::X)
    } else if won_by(s, Player::O) {
        CellState::Occupied(Player::O)
    } else if filled(s) {
        CellState::Tie
    } else {
        CellState::Free
    }
}

/// Checks if all cells in a given state array are occupied.
/// Returns `true` if no `Free` cells remain, `false` otherwise.
pub fn all_occupied(states: &[CellState; 9]) -> (r: bool)
    ensures
        r == filled(states@),
{
    let mut i: usize = 0;
    while i < 9
        invariant
            i <= 9,
            forall|k: int| 0 <= k < i ==> states@[k] != CellState::Free,
        decreases 9 - i,
    {
        if let CellState::Free = states[i] {
            return false;
        }
        i += 1;
    }
    true
}

/// Checks if a player has won in a given state.
/// Returns `true` if the player has achieved a winning pattern, `false` otherwise.
pub fn is_won_by(states: &[CellState; 9], player: Player) -> (r: bool)
    ensures
        r == won_by(states@, player),
{
    let player = CellState::Occupied(player);
    (states[0] == player && states[1] == player && states[2] == player)
        || (states[3] == player && states[4] == player && states[5] == player)
        || (states[6] == player && states[7] == player && states[8] == player)
        || (states[0] == player && states[3] == player && states[6] == player)
        || (states[1] == player && states[4] == player && states[7] == player)
        || (states[2] == player && states[5] == player && states[8] == player)
        || (states[0] == player && states[4] == player && states[8] == player)
        || (states[2] == player && states[4] == player && states[6] == player)
}


/// The game board: the cells of the nine sub-boards, and the aggregate
/// state of each sub-board.
#[derive(Clone, Copy, PartialEq, Eq, Debug)]
pub struct Board {
    pub cells: [[CellState; 9]; 9],
    pub states: [CellState; 9],
}

impl Board {
    pub open spec fn spec_new() -> Board {
        Board {
            cells: spec_array_fill_for_copy_type::<[CellState; 9], 9>(
                spec_array_fill_for_copy_type::<CellState, 9>(CellState::Free),
            ),
            states: spec_array_fill_for_copy_type::<CellState, 9>(CellState::Free),
        }
    }

    /// Creates a new empty board.
    fn new() -> (r: Self)
        ensures
            r == Board::spec_new(),
    {
        Self { cells: [[CellState::Free; 9]; 9], states: [CellState::Free; 9] }
    }
}

/// The state of the game as a whole.
#[derive(Clone, Copy, PartialEq, Eq, Debug, Structural)]
pub enum PlayingState {
    Tie,
    Win(Player),
    Continue,
}

/// True iff every sub-board that is still `Free` has no free cell left.
pub open spec fn no_open_cell(board: Board) -> bool {
    forall|i: int|
        0 <= i < 9 && board.states[i] == CellState::Free ==> #[trigger] filled(board.cells[i]@)
}

/// The game state that `board` stands for, `next` being the player to move:
/// a win of the player who just moved, a tie when no sub-board can take a
/// move any more, and otherwise a game that goes on.
pub open spec fn derived_state(board: Board, next: Player) -> PlayingState {
    if won_by(board.states@, next.spec_other()) {
        PlayingState::Win(next.spec_other())
    } else if filled(board.states@) || no_open_cell(board) {
        PlayingState::Tie
    } else {
        PlayingState::Continue
    }
}

/// The game state of `board` computed from the board alone, with no
/// knowledge of who moved last.
pub open spec fn rescanned_state(board: Board) -> PlayingState {
    if won_by(board.states@, Player::X) {
        PlayingState::Win(Player::X)
    } else if won_by(board.states@, Player::O) {
        PlayingState::Win(Player::O)
    } else if filled(board.states@) || no_open_cell(board) {
        PlayingState::Tie
    } else {
        PlayingState::Continue
    }
}

/// A game of ultimate tic-tac-toe: the board, the player to move, the
/// state of the game and the sub-board the next move is forced into.
#[derive(Clone, Copy, PartialEq, Eq, Debug)]
pub struct Morpion {
    pub board: Board,
    pub player: Player,
    pub state: PlayingState,
    pub focused_big_cell: Option<usize>,
}

impl Morpion {
    pub open spec fn spec_new() -> Morpion {
        Morpion {
            board: Board::spec_new(),
            player: Player::X,
            state: PlayingState::Continue,
            focused_big_cell: None,
        }
    }

    /// The rules of a legal move at cell `cell` of sub-board `sub`.
    pub open spec fn playable(self, sub: int, cell: int) -> bool {
        &&& 0 <= sub < 9
        &&& 0 <= cell < 9
        &&& self.board.states[sub] == CellState::Free
        &&& self.board.cells[sub][cell] == CellState::Free
        &&& (self.focused_big_cell == Some(sub as usize) || self.focused_big_cell is None)
    }

    /// The game after the player to move marks cell `cell` of sub-board `sub`.
    pub open spec fn spec_play(self, sub: int, cell: int) -> Morpion {
        let p = self.player;
        let sub_cells = spec_array_update(self.board.cells[sub], cell, CellState::Occupied(p));
        let agg = if won_by(sub_cells@, p) {
            CellState::Occupied(p)
        } else if filled(sub_cells@) {
            CellState::Tie
        } else {
            self.board.states[sub]
        };
        let board = Board {
            cells: spec_array_update(self.board.cells, sub, sub_cells),
            states: spec_array_update(self.board.states, sub, agg),
        };
        Morpion {
            board,
            player: p.spec_other(),
            state: derived_state(board, p.spec_other()),
            focused_big_cell: if board.states[cell] == CellState::Free {
                Some(cell as usize)
            } else {
                None
            },
        }
    }

    /// The invariant of every game reached by legal moves: each aggregate
    /// state agrees with its sub-board, no sub-board is won by both players,
    /// the game state agrees with the board, and a forced sub-board is open.
    pub open spec fn wf(self) -> bool {
        &&& forall|i: int|
            0 <= i < 9 ==> #[trigger] self.board.states[i] == sub_state(self.board.cells[i]@)
        &&& forall|i: int|
            0 <= i < 9 ==> !(won_by(#[trigger] self.board.cells[i]@, Player::X) && won_by(
                self.board.cells[i]@,
                Player::O,
            ))
        &&& self.state == derived_state(self.board, self.player)
        &&& match self.focused_big_cell {
            Some(f) => f < 9 && self.board.states[f as int] == CellState::Free,
            None => true,
        }
    }

    /// Creates a new game with an empty board, `X` to move.
    pub fn new() -> (r: Self)
        ensures
            r == Morpion::spec_new(),
    {
        Self {
            board: Board::new(),
            player: Player::X,
            state: PlayingState::Continue,
            focused_big_cell: None,
        }
    }

    /// Checks if the game is over.
    pub fn is_over(&self) -> (r: bool)
        ensures
            r == (self.state != PlayingState::Continue),
    {
        !(self.state == PlayingState::Continue)
    }

    /// Determines if cell `index` of sub-board `ult_index` is playable: the
    /// sub-board and the cell are free, and the move goes where the last
    /// move forced it, if it forced anything.
    pub fn index_is_playable(&self, ult_index: usize, index: usize) -> (r: bool)
        requires
            ult_index < 9,
            index < 9,
        ensures
            r == self.playable(ult_index as int, index as int),
    {
        self.board.states[ult_index] == CellState::Free && self.board.cells[ult_index][index]
            == CellState::Free && match self.focused_big_cell {
            Some(obliged_index) => obliged_index == ult_index,
            None => true,
        }
    }

    /// Plays a move at the specified position: marks the cell, updates the
    /// sub-board's aggregate state, sets the forced sub-board, switches
    /// players and recomputes the game state.
    pub fn play_at(&mut self, ult_index: usize, index: usize)
        requires
            ult_index < 9,
            index < 9,
        ensures
            *final(self) == old(self).spec_play(ult_index as int, index as int),
    {
        let ghost start = *self;
        let player = self.player;
        self.board.cells[ult_index][index] = CellState::Occupied(player);
        if is_won_by(&self.board.cells[ult_index], player) {
            self.board.states[ult_index] = CellState::Occupied(player);
        } else if all_occupied(&self.board.cells[ult_index]) {
            self.board.states[ult_index] = CellState::Tie;
        }
        match self.board.states[index] {
            CellState::Free => self.focused_big_cell = Some(index),
            _ => self.focused_big_cell = None,
        }
        self.player = player.other();
        self.state = self.check_playing_state();
        proof {
            let target = start.spec_play(ult_index as int, index as int);
            assert(self.board.cells =~= target.board.cells);
            assert(self.board.states =~= target.board.states);
        }
    }

    /// Evaluates the game state from the board: a win of the player who
    /// moved last, a tie, or a game that goes on.
    pub fn check_playing_state(&self) -> (r: PlayingState)
        ensures
            r == derived_state(self.board, self.player),
    {
        let last = self.player.other();
        if is_won_by(&self.board.states, last) {
            return PlayingState::Win(last);
        }
        if all_occupied(&self.board.states) {
            return PlayingState::Tie;
        }
        let mut i: usize = 0;
        while i < 9
            invariant
                i <= 9,
                last == self.player.spec_other(),
                !won_by(self.board.states@, last),
                !filled(self.board.states@),
                forall|k: int|
                    0 <= k < i && self.board.states[k] == CellState::Free ==> #[trigger] filled(
                        self.board.cells[k]@,
                    ),
            decreases 9 - i,
        {
            if self.board.states[i] == CellState::Free && !all_occupied(&self.board.cells[i]) {
                assert(!filled(self.board.cells[i as int]@));
                return PlayingState::Continue;
            }
            i += 1;
        }
        PlayingState::Tie
    }

    /// Row `row` of the board drawn as a 9x9 grid: the sub-boards laid out
    /// three by three, each cell at its place inside its sub-board.
    pub fn grid_row(&self, row: usize) -> (r: [CellState; 9])
        requires
            row < 9,
        ensures
            forall|c: int|
                0 <= c < 9 ==> #[trigger] r[c] == self.board.cells[(row / 3) * 3 + c / 3][(row
                    % 3) * 3 + c % 3],
    {
        let mut r: [CellState; 9] = [CellState::Free; 9];
        let mut c: usize = 0;
        while c < 9
            invariant
                row < 9,
                c <= 9,
                forall|k: int|
                    0 <= k < c ==> #[trigger] r[k] == self.board.cells[(row / 3) * 3 + k / 3][(row
                        % 3) * 3 + k % 3],
            decreases 9 - c,
        {
            r[c] = self.board.cells[(row / 3) * 3 + c / 3][(row % 3) * 3 + c % 3];
            c += 1;
        }
        r
    }

    /// Resets the game to an empty board, `X` to move.
    pub fn reset(&mut self)
        ensures
            *final(self) == Morpion::spec_new(),
    {
        self.board = Board::new();
        self.player = Player::X;
        self.state = PlayingState::Continue;
        self.focused_big_cell = None;
    }
}


/// The game reached from a new game by playing `moves` in turn, each a pair
/// (sub-board, cell); `None` where one of them is not legal, or comes after
/// the game is over.
pub open spec fn replay(moves: Seq<(int, int)>) -> Option<Morpion>
    decreases moves.len(),
{
    if moves.len() == 0 {
        Some(Morpion::spec_new())
    } else {
        let (sub, cell) = moves.last();
        match replay(moves.drop_last()) {
            Some(n) => if n.state == PlayingState::Continue && n.playable(sub, cell) {
                Some(n.spec_play(sub, cell))
            } else {
                None
            },
            None => None,
        }
    }
}

/// A new game satisfies the invariant.
pub proof fn lemma_new_wf()
    ensures
        Morpion::spec_new().wf(),
{
    let n = Morpion::spec_new();
    assert forall|i: int| 0 <= i < 9 implies n.board.states[i] == sub_state(
        #[trigger] n.board.cells[i]@,
    ) by {
        assert(n.board.cells[i]@[0] == CellState::Free);
    }
    assert(!no_open_cell(n.board)) by {
        assert(n.board.cells[0]@[0] == CellState::Free);
        assert(!filled(n.board.cells[0]@));
    }
    assert(!filled(n.board.states@)) by {
        assert(n.board.states@[0] == CellState::Free);
    }
}

/// A legal move in a game that goes on keeps the invariant.
pub proof fn lemma_play_wf(n: Morpion, sub: int, cell: int)
    requires
        n.wf(),
        n.state == PlayingState::Continue,
        n.playable(sub, cell),
    ensures
        n.spec_play(sub, cell).wf(),
{
    let m = n.spec_play(sub, cell);
    let old_cells = n.board.cells[sub]@;
    let new_cells = m.board.cells[sub]@;
    assert(new_cells == old_cells.update(cell, CellState::Occupied(n.player)));
    assert(n.board.states[sub] == sub_state(old_cells));
    assert(!won_by(old_cells, Player::X) && !won_by(old_cells, Player::O) && !filled(old_cells));
    assert(!won_by(new_cells, n.player.spec_other()));
    assert forall|i: int| 0 <= i < 9 implies m.board.states[i] == sub_state(
        #[trigger] m.board.cells[i]@,
    ) by {
        if i != sub {
            assert(m.board.cells[i] == n.board.cells[i]);
            assert(m.board.states[i] == n.board.states[i]);
        }
    }
    assert forall|i: int| 0 <= i < 9 implies !(won_by(#[trigger] m.board.cells[i]@, Player::X)
        && won_by(m.board.cells[i]@, Player::O)) by {
        if i != sub {
            assert(m.board.cells[i] == n.board.cells[i]);
        }
    }
}

/// Every game reached by legal moves from a new game satisfies the invariant.
pub proof fn lemma_replay_wf(moves: Seq<(int, int)>)
    ensures
        replay(moves) matches Some(n) ==> n.wf(),
    decreases moves.len(),
{
    if moves.len() == 0 {
        lemma_new_wf();
    } else {
        lemma_replay_wf(moves.drop_last());
        let (sub, cell) = moves.last();
        if let Some(n) = replay(moves.drop_last()) {
            if n.state == PlayingState::Continue && n.playable(sub, cell) {
                lemma_play_wf(n, sub, cell);
            }
        }
    }
}

/// In every game reached by legal moves, the aggregate state of each
/// sub-board is a player's mark exactly when that player owns a line of the
/// sub-board, and `Tie` exactly when the sub-board is full and owned by
/// nobody.
pub proof fn lemma_reachable_aggregates(moves: Seq<(int, int)>, i: int, p: Player)
    requires
        replay(moves) is Some,
        0 <= i < 9,
    ensures
        ({
            let n = replay(moves)->Some_0;
            &&& n.board.states[i] == CellState::Occupied(p) <==> won_by(n.board.cells[i]@, p)
            &&& n.board.states[i] == CellState::Tie <==> (filled(n.board.cells[i]@) && !won_by(
                n.board.cells[i]@,
                Player::X,
            ) && !won_by(n.board.cells[i]@, Player::O))
        }),
{
    lemma_replay_wf(moves);
    let n = replay(moves)->Some_0;
    assert(n.board.states[i] == sub_state(n.board.cells[i]@));
    assert(!(won_by(n.board.cells[i]@, Player::X) && won_by(n.board.cells[i]@, Player::O)));
}

/// After a legal move in a game that goes on, the game state that the move
/// stores agrees with the state computed afresh from the new board.
pub proof fn lemma_play_state_rescanned(n: Morpion, sub: int, cell: int)
    requires
        n.wf(),
        n.state == PlayingState::Continue,
        n.playable(sub, cell),
    ensures
        n.spec_play(sub, cell).state == rescanned_state(n.spec_play(sub, cell).board),
{
    let m = n.spec_play(sub, cell);
    let waiting = n.player.spec_other();
    assert(!won_by(n.board.states@, waiting));
    assert(m.board.states@ == n.board.states@.update(sub, m.board.states[sub]));
    assert(m.board.states[sub] != CellState::Occupied(waiting));
    assert(!won_by(m.board.states@, waiting));
}

/// A game that satisfies the invariant and goes on has a legal move.
pub proof fn lemma_has_move(n: Morpion)
    requires
        n.wf(),
        n.state == PlayingState::Continue,
    ensures
        exists|sub: int, cell: int| n.playable(sub, cell),
{
    let sub: int = match n.focused_big_cell {
        Some(f) => f as int,
        None => choose|i: int|
            0 <= i < 9 && n.board.states[i] == CellState::Free && !#[trigger] filled(
                n.board.cells[i]@,
            ),
    };
    assert(n.board.states[sub] == sub_state(n.board.cells[sub]@));
    assert(!filled(n.board.cells[sub]@));
    let cell = choose|j: int| 0 <= j < 9 && n.board.cells[sub]@[j] == CellState::Free;
    assert(n.playable(sub, cell));
}


/// `1` if cell `k % 9` of sub-board `k / 9` is free, `0` otherwise.
pub open spec fn cell_free(node: Morpion, k: int) -> int {
    if node.board.cells[k / 9][k % 9] == CellState::Free {
        1
    } else {
        0
    }
}

/// The number of free cells among the first `k` cells, in row-major order
/// of (sub-board, cell).
pub open spec fn free_cells_upto(node: Morpion, k: int) -> int
    decreases k,
{
    if k <= 0 {
        0
    } else {
        free_cells_upto(node, k - 1) + cell_free(node, k - 1)
    }
}

/// The number of free cells of the whole board.
pub open spec fn free_cells(node: Morpion) -> int {
    free_cells_upto(node, 81)
}

/// Filling the free cell `key` removes one from every count that takes it.
proof fn lemma_free_cells_upto(n: Morpion, m: Morpion, key: int, k: int)
    requires
        0 <= k <= 81,
        forall|i: int| 0 <= i < 81 && i != key ==> cell_free(m, i) == #[trigger] cell_free(n, i),
        cell_free(n, key) == 1,
        cell_free(m, key) == 0,
    ensures
        free_cells_upto(m, k) == free_cells_upto(n, k) - (if key < k && 0 <= key {
            1int
        } else {
            0int
        }),
    decreases k,
{
    if k > 0 {
        lemma_free_cells_upto(n, m, key, k - 1);
        if k - 1 != key {
            assert(cell_free(n, k - 1) == cell_free(m, k - 1));
        }
    }
}

/// A legal move fills exactly one free cell.
pub proof fn lemma_play_fills_one(n: Morpion, sub: int, cell: int)
    requires
        n.playable(sub, cell),
    ensures
        free_cells(n.spec_play(sub, cell)) == free_cells(n) - 1,
        free_cells(n.spec_play(sub, cell)) >= 0,
{
    let m = n.spec_play(sub, cell);
    let key = 9 * sub + cell;
    assert(key / 9 == sub && key % 9 == cell);
    assert forall|i: int| 0 <= i < 81 && i != key implies cell_free(m, i) == #[trigger] cell_free(
        n,
        i,
    ) by {
        let (s, c) = (i / 9, i % 9);
        assert(0 <= s < 9 && 0 <= c < 9);
        assert(s != sub || c != cell);
        if s != sub {
            assert(m.board.cells[s] == n.board.cells[s]);
        }
    }
    lemma_free_cells_upto(n, m, key, 81);
    lemma_free_cells_nonnegative(m, 81);
}

/// No count of free cells is negative.
proof fn lemma_free_cells_nonnegative(n: Morpion, k: int)
    ensures
        free_cells_upto(n, k) >= 0,
    decreases k,
{
    if k > 0 {
        lemma_free_cells_nonnegative(n, k - 1);
    }
}

} // verus!
