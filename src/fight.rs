use crate::ai::{
    ai_choice, child_nodes, legal_moves, lemma_children_are_legal_moves, lemma_children_wf, AILevel,
};
use crate::morpion::{
    free_cells, lemma_new_wf, lemma_play_fills_one, replay, Morpion, Player, PlayingState,
};
use vstd::prelude::*;

verus! {

/// The level that plays `player` in a fight of `x_level` against `o_level`.
pub open spec fn level_of(player: Player, x_level: AILevel, o_level: AILevel) -> AILevel {
    match player {
        Player::X => x_level,
        Player::O => o_level,
    }
}

/// `next` is a move that the AI of the player to move in `game` may make:
/// its choice with some noise in `-2..2` for each child, in a game that
/// goes on.
pub open spec fn ai_step(game: Morpion, next: Morpion, x_level: AILevel, o_level: AILevel) -> bool {
    &&& game.state == PlayingState::Continue
    &&& exists|noise: Seq<isize>|
        {
            &&& noise.len() == child_nodes(game).len()
            &&& forall|k: int| 0 <= k < noise.len() ==> -2 <= #[trigger] noise[k] < 2
            &&& next == ai_choice(game, level_of(game.player, x_level, o_level), noise)
        }
}

/// `games` is a fight: it starts with a new game, each game after the first
/// is an AI move from the one before, and the last one is over.
pub open spec fn is_fight(games: Seq<Morpion>, x_level: AILevel, o_level: AILevel) -> bool {
    &&& games.len() > 0
    &&& games[0] == Morpion::spec_new()
    &&& forall|k: int|
        0 <= k < games.len() - 1 ==> #[trigger] ai_step(games[k], games[k + 1], x_level, o_level)
    &&& games.last().state != PlayingState::Continue
}

/// Simulates a single AI vs AI fight: plays a game from a new board, `X`
/// at `x_level` and `O` at `o_level`, and returns how it ended. The result
/// is a win or a tie; it ends a fight whose every move is the AI's choice
/// at the mover's level for some noise, and a game that legal moves reach
/// from a new game.
pub fn fight(x_level: AILevel, o_level: AILevel) -> (r: PlayingState)
    ensures
        r != PlayingState::Continue,
        exists|games: Seq<Morpion>|
            #![trigger is_fight(games, x_level, o_level)]
            is_fight(games, x_level, o_level) && games.last().state == r,
        exists|moves: Seq<(int, int)>|
            #![trigger replay(moves)]
            replay(moves) matches Some(n) && n.state == r,
{
    let mut morpion = Morpion::new();
    let ghost mut moves: Seq<(int, int)> = seq![];
    let ghost mut games: Seq<Morpion> = seq![morpion];
    proof {
        lemma_new_wf();
    }
    while !morpion.is_over()
        invariant
            morpion.wf(),
            replay(moves) == Some(morpion),
            games.len() > 0,
            games[0] == Morpion::spec_new(),
            games.last() == morpion,
            forall|k: int|
                0 <= k < games.len() - 1 ==> #[trigger] ai_step(
                    games[k],
                    games[k + 1],
                    x_level,
                    o_level,
                ),
        decreases free_cells(morpion),
    {
        proof {
            lemma_children_wf(morpion);
        }
        let next = match morpion.player {
            Player::X => morpion.ai_move(x_level),
            Player::O => morpion.ai_move(o_level),
        };
        proof {
            lemma_children_are_legal_moves(morpion);
            let cs = child_nodes(morpion);
            let t = choose|t: int| 0 <= t < cs.len() && cs[t] == next;
            let (sub, cell) = legal_moves(morpion)[t];
            lemma_play_fills_one(morpion, sub, cell);
            assert(moves.push((sub, cell)).drop_last() == moves);
            moves = moves.push((sub, cell));
            assert(ai_step(morpion, next, x_level, o_level));
            let old_games = games;
            games = games.push(next);
            assert forall|k: int| 0 <= k < games.len() - 1 implies #[trigger] ai_step(
                games[k],
                games[k + 1],
                x_level,
                o_level,
            ) by {
                if k < old_games.len() - 1 {
                    assert(games[k] == old_games[k] && games[k + 1] == old_games[k + 1]);
                }
            }
        }
        morpion = next;
    }
    proof {
        assert(is_fight(games, x_level, o_level));
    }
    morpion.state
}

/// The results of a series of fights: wins of `X`, wins of `O`, and ties.
#[derive(Clone, Copy, PartialEq, Eq, Debug, Structural)]
pub struct FightTally {
    pub x_wins: usize,
    pub o_wins: usize,
    pub ties: usize,
}

impl FightTally {
    /// A tally with no fight in it.
    pub fn new() -> (r: Self)
        ensures
            r == (FightTally { x_wins: 0, o_wins: 0, ties: 0 }),
    {
        FightTally { x_wins: 0, o_wins: 0, ties: 0 }
    }

    /// The number of fights counted.
    pub open spec fn total(self) -> int {
        self.x_wins + self.o_wins + self.ties
    }

    /// Counts the result of one fight: a win of `X`, a win of `O`, or
    /// anything else as a tie.
    pub fn record(&mut self, result: PlayingState)
        requires
            old(self).total() < usize::MAX,
        ensures
            final(self).total() == old(self).total() + 1,
            final(self).x_wins == old(self).x_wins + if result == PlayingState::Win(Player::X) {
                1int
            } else {
                0
            },
            final(self).o_wins == old(self).o_wins + if result == PlayingState::Win(Player::O) {
                1int
            } else {
                0
            },
            final(self).ties == old(self).ties + if result is Win {
                0int
            } else {
                1
            },
    {
        match result {
            PlayingState::Win(player) => {
                if player == Player::X {
                    self.x_wins += 1;
                } else {
                    self.o_wins += 1;
                }
            },
            _ => {
                self.ties += 1;
            },
        }
    }
}

} // verus!
