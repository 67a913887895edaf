use vstd::prelude::*;

verus! {

/// Outcome of one game from one contestant's point of view.
#[derive(Clone, Copy, Debug, PartialEq, Eq, Structural)]
pub enum GameResult {
    Win,
    Loss,
    InProgress,
}

/// Which side of a pairing moves first.
#[derive(Clone, Copy, Debug, PartialEq, Eq, Structural)]
pub enum FirstMoverAdvantage {
    First,
    Last,
}

/// One game record, owned by the contestant that played it.
///
/// `opponent` is the arena index of the other contestant, or `None` for a bye.
#[derive(Clone, Copy, Debug)]
pub struct Game {
    pub game_result: GameResult,
    pub advantage: Option<FirstMoverAdvantage>,
    pub opponent: Option<usize>,
}

impl Game {
    /// A game against `opponent` that has not been decided yet.
    pub fn in_progress(opponent: usize, advantage: Option<FirstMoverAdvantage>) -> (g: Game)
        ensures
            g.game_result == GameResult::InProgress,
            g.opponent == Some(opponent),
            g.advantage == advantage,
    {
        Game { game_result: GameResult::InProgress, advantage, opponent: Some(opponent) }
    }

    /// A bye: a win credited without an opponent and without a first mover.
    pub fn bye() -> (g: Game)
        ensures
            g.game_result == GameResult::Win,
            g.opponent.is_none(),
            g.advantage.is_none(),
    {
        Game { game_result: GameResult::Win, advantage: None, opponent: None }
    }

    pub fn is_in_progress(&self) -> (r: bool)
        ensures
            r == (self.game_result == GameResult::InProgress),
    {
        match self.game_result {
            GameResult::InProgress => true,
            _ => false,
        }
    }

    pub fn is_win(&self) -> (r: bool)
        ensures
            r == (self.game_result == GameResult::Win),
    {
        match self.game_result {
            GameResult::Win => true,
            _ => false,
        }
    }
}

} // verus!
