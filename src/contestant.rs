use vstd::prelude::*;
use crate::game::{FirstMoverAdvantage, Game, GameResult};
use crate::seed::{Seed, seed_above, lemma_seed_key_injective};

verus! {

/// Largest number of games one contestant may hold; keeps every metric
/// within `u64`.
pub const MAX_GAMES: u64 = 1_000_000;

/// A participant: its seed, its name and its games in round order.
pub struct Contestant {
    pub seed: Seed,
    pub name: String,
    pub games: Vec<Game>,
}

/// Number of won games.
pub open spec fn wins_of(games: Seq<Game>) -> nat
    decreases games.len(),
{
    if games.len() == 0 {
        0
    } else {
        wins_of(games.drop_last()) + if games.last().game_result == GameResult::Win {
            1nat
        } else {
            0nat
        }
    }
}

/// Win count of the contestant at `id` of `arena`.
pub open spec fn wins_at(arena: Seq<Contestant>, id: int) -> nat {
    wins_of(arena[id].games@)
}

/// What one game contributes to the opponent win count: the opponent's win
/// count, or `own` (the player's own win count) for a bye.
pub open spec fn opponent_term(g: Game, own: nat, arena: Seq<Contestant>) -> nat {
    match g.opponent {
        Some(o) => wins_at(arena, o as int),
        None => own,
    }
}

/// Sum of `opponent_term` over `games`.
pub open spec fn opponent_wins_of(games: Seq<Game>, own: nat, arena: Seq<Contestant>) -> nat
    decreases games.len(),
{
    if games.len() == 0 {
        0
    } else {
        opponent_wins_of(games.drop_last(), own, arena) + opponent_term(games.last(), own, arena)
    }
}

/// Sum of `opponent_term` over the won games of `games`.
pub open spec fn sonneborn_berger_of(games: Seq<Game>, own: nat, arena: Seq<Contestant>) -> nat
    decreases games.len(),
{
    if games.len() == 0 {
        0
    } else {
        sonneborn_berger_of(games.drop_last(), own, arena) + if games.last().game_result
            == GameResult::Win {
            opponent_term(games.last(), own, arena)
        } else {
            0nat
        }
    }
}

pub open spec fn opponent_wins_at(arena: Seq<Contestant>, id: int) -> nat {
    opponent_wins_of(arena[id].games@, wins_at(arena, id), arena)
}

pub open spec fn sonneborn_berger_at(arena: Seq<Contestant>, id: int) -> nat {
    sonneborn_berger_of(arena[id].games@, wins_at(arena, id), arena)
}

/// Every opponent reference names a contestant of `arena`.
pub open spec fn opponents_valid(games: Seq<Game>, arena_len: int) -> bool {
    forall|k: int|
        0 <= k < games.len() && (#[trigger] games[k]).opponent.is_some()
            ==> games[k].opponent.unwrap() < arena_len
}

/// An arena that rankings can be computed on: game counts bounded and every
/// opponent reference in range.
pub open spec fn arena_ok(arena: Seq<Contestant>) -> bool {
    forall|i: int|
        0 <= i < arena.len() ==> {
            &&& (#[trigger] arena[i]).games@.len() <= MAX_GAMES
            &&& opponents_valid(arena[i].games@, arena.len() as int)
        }
}

pub proof fn lemma_wins_le_len(games: Seq<Game>)
    ensures
        wins_of(games) <= games.len(),
    decreases games.len(),
{
    if games.len() > 0 {
        lemma_wins_le_len(games.drop_last());
    }
}

proof fn lemma_prefix_step(games: Seq<Game>, i: int)
    requires
        0 <= i < games.len(),
    ensures
        games.subrange(0, i + 1).drop_last() == games.subrange(0, i),
        games.subrange(0, i + 1).last() == games[i],
{
    assert(games.subrange(0, i + 1).drop_last() =~= games.subrange(0, i));
}

/// The comparison key of a contestant: a greater key ranks higher.
#[derive(Clone, Copy, Debug, PartialEq, Eq, Structural)]
pub struct RankKey {
    pub wins: u64,
    pub opponent_wins: u64,
    pub sonneborn_berger: u64,
    pub seed: Seed,
}

/// `a` ranks strictly above `b`: more wins, then a greater opponent win count,
/// then a greater Sonneborn-Berger score, then a greater seed.
pub open spec fn key_above(a: RankKey, b: RankKey) -> bool {
    ||| a.wins > b.wins
    ||| a.wins == b.wins && a.opponent_wins > b.opponent_wins
    ||| a.wins == b.wins && a.opponent_wins == b.opponent_wins && a.sonneborn_berger
        > b.sonneborn_berger
    ||| a.wins == b.wins && a.opponent_wins == b.opponent_wins && a.sonneborn_berger
        == b.sonneborn_berger && seed_above(a.seed, b.seed)
}

/// The key of the contestant at `id` of `arena`, from its current games.
pub open spec fn key_at(arena: Seq<Contestant>, id: int) -> RankKey {
    RankKey {
        wins: wins_at(arena, id) as u64,
        opponent_wins: opponent_wins_at(arena, id) as u64,
        sonneborn_berger: sonneborn_berger_at(arena, id) as u64,
        seed: arena[id].seed,
    }
}

/// The contestant at `a` ranks strictly above the one at `b`.
pub open spec fn ranks_above_at(arena: Seq<Contestant>, a: int, b: int) -> bool {
    key_above(key_at(arena, a), key_at(arena, b))
}

/// The ranking order is a strict total order on contestants with distinct
/// seeds: no contestant ranks above itself, ranking above is transitive, and of
/// two contestants with different seeds exactly one ranks above the other.
pub proof fn lemma_ranking_strict_total(arena: Seq<Contestant>, a: int, b: int, c: int)
    requires
        0 <= a < arena.len(),
        0 <= b < arena.len(),
        0 <= c < arena.len(),
    ensures
        !ranks_above_at(arena, a, a),
        ranks_above_at(arena, a, b) && ranks_above_at(arena, b, c) ==> ranks_above_at(arena, a, c),
        arena[a].seed != arena[b].seed ==> (ranks_above_at(arena, a, b) != ranks_above_at(
            arena,
            b,
            a,
        )),
{
    lemma_key_order(key_at(arena, a), key_at(arena, b), key_at(arena, c));
}

/// `key_above` is irreflexive and transitive, and total on keys with distinct
/// seeds.
pub proof fn lemma_key_order(a: RankKey, b: RankKey, c: RankKey)
    ensures
        !key_above(a, a),
        key_above(a, b) && key_above(b, c) ==> key_above(a, c),
        a.seed != b.seed ==> (key_above(a, b) != key_above(b, a)),
{
    if a.seed != b.seed && !key_above(a, b) && !key_above(b, a) {
        lemma_seed_key_injective(a.seed, b.seed);
    }
}

impl RankKey {
    /// Whether `self` ranks strictly above `other`.
    pub fn ranks_above(&self, other: &RankKey) -> (r: bool)
        ensures
            r == key_above(*self, *other),
    {
        if self.wins != other.wins {
            self.wins > other.wins
        } else if self.opponent_wins != other.opponent_wins {
            self.opponent_wins > other.opponent_wins
        } else if self.sonneborn_berger != other.sonneborn_berger {
            self.sonneborn_berger > other.sonneborn_berger
        } else {
            self.seed.ranks_above(&other.seed)
        }
    }
}

/// The contestant has a game that is not decided yet.
pub open spec fn has_pending(games: Seq<Game>) -> bool {
    exists|k: int| 0 <= k < games.len() && (#[trigger] games[k]).game_result == GameResult::InProgress
}

/// The contestant has been given a bye before.
pub open spec fn had_bye(games: Seq<Game>) -> bool {
    exists|k: int| 0 <= k < games.len() && (#[trigger] games[k]).opponent.is_none()
}

/// Number of games against the contestant at index `other`.
pub open spec fn meetings(games: Seq<Game>, other: usize) -> nat
    decreases games.len(),
{
    if games.len() == 0 {
        0
    } else {
        meetings(games.drop_last(), other) + if games.last().opponent == Some(other) {
            1nat
        } else {
            0nat
        }
    }
}

/// Games moving first minus games moving last.
pub open spec fn first_move_balance(games: Seq<Game>) -> int
    decreases games.len(),
{
    if games.len() == 0 {
        0
    } else {
        first_move_balance(games.drop_last()) + match games.last().advantage {
            Some(FirstMoverAdvantage::First) => 1int,
            Some(FirstMoverAdvantage::Last) => -1int,
            None => 0int,
        }
    }
}

/// Losses counted as games played minus games won.
pub open spec fn losses_of(games: Seq<Game>) -> int {
    games.len() - wins_of(games)
}

pub proof fn lemma_meetings_le_len(games: Seq<Game>, other: usize)
    ensures
        meetings(games, other) <= games.len(),
    decreases games.len(),
{
    if games.len() > 0 {
        lemma_meetings_le_len(games.drop_last(), other);
    }
}

proof fn lemma_balance_bounded(games: Seq<Game>)
    ensures
        -games.len() <= first_move_balance(games) <= games.len(),
    decreases games.len(),
{
    if games.len() > 0 {
        lemma_balance_bounded(games.drop_last());
    }
}

impl Contestant {
    /// Number of games this contestant has won.
    pub fn win_count(&self) -> (r: usize)
        ensures
            r == wins_of(self.games@),
    {
        let mut count: usize = 0;
        let mut i: usize = 0;
        while i < self.games.len()
            invariant
                i <= self.games@.len(),
                count == wins_of(self.games@.subrange(0, i as int)),
            decreases self.games@.len() - i,
        {
            proof {
                lemma_prefix_step(self.games@, i as int);
                lemma_wins_le_len(self.games@.subrange(0, i as int));
            }
            if self.games[i].is_win() {
                count = count + 1;
            }
            i = i + 1;
        }
        assert(self.games@.subrange(0, i as int) =~= self.games@);
        count
    }

    /// Sum over this contestant's games of the opponent's win count, where a
    /// bye counts this contestant's own win count.
    pub fn opponent_win_count(&self, arena: &Vec<Contestant>) -> (r: u64)
        requires
            arena_ok(arena@),
            self.games@.len() <= MAX_GAMES,
            opponents_valid(self.games@, arena@.len() as int),
        ensures
            r == opponent_wins_of(self.games@, wins_of(self.games@), arena@),
    {
        self.sum_opponent_wins(arena, false)
    }

    /// Sonneborn-Berger score: sum over won games of the opponent's win
    /// count, where a bye counts this contestant's own win count.
    pub fn sonneborn_berger(&self, arena: &Vec<Contestant>) -> (r: u64)
        requires
            arena_ok(arena@),
            self.games@.len() <= MAX_GAMES,
            opponents_valid(self.games@, arena@.len() as int),
        ensures
            r == sonneborn_berger_of(self.games@, wins_of(self.games@), arena@),
    {
        self.sum_opponent_wins(arena, true)
    }

    fn sum_opponent_wins(&self, arena: &Vec<Contestant>, won_only: bool) -> (r: u64)
        requires
            arena_ok(arena@),
            self.games@.len() <= MAX_GAMES,
            opponents_valid(self.games@, arena@.len() as int),
        ensures
            !won_only ==> r == opponent_wins_of(self.games@, wins_of(self.games@), arena@),
            won_only ==> r == sonneborn_berger_of(self.games@, wins_of(self.games@), arena@),
    {
        proof {
            lemma_wins_le_len(self.games@);
        }
        let own = self.win_count() as u64;
        let mut sum: u64 = 0;
        let mut i: usize = 0;
        while i < self.games.len()
            invariant
                i <= self.games@.len() <= MAX_GAMES,
                arena_ok(arena@),
                opponents_valid(self.games@, arena@.len() as int),
                own == wins_of(self.games@),
                own <= MAX_GAMES,
                sum <= i * MAX_GAMES,
                !won_only ==> sum == opponent_wins_of(self.games@.subrange(0, i as int), own as nat, arena@),
                won_only ==> sum == sonneborn_berger_of(self.games@.subrange(0, i as int), own as nat, arena@),
            decreases self.games@.len() - i,
        {
            proof {
                lemma_prefix_step(self.games@, i as int);
            }
            let g = self.games[i];
            let term: u64 = match g.opponent {
                Some(o) => {
                    proof {
                        lemma_wins_le_len(arena@[o as int].games@);
                    }
                    arena[o].win_count() as u64
                },
                None => own,
            };
            assert(term == opponent_term(g, own as nat, arena@));
            assert(term <= MAX_GAMES);
            assert(sum + term <= (i + 1) * MAX_GAMES) by (nonlinear_arith)
                requires
                    sum <= i * MAX_GAMES,
                    term <= MAX_GAMES,
            ;
            assert((i + 1) * MAX_GAMES <= MAX_GAMES * MAX_GAMES) by (nonlinear_arith)
                requires
                    i + 1 <= MAX_GAMES,
            ;
            if !won_only || g.is_win() {
                sum = sum + term;
            }
            i = i + 1;
        }
        assert(self.games@.subrange(0, i as int) =~= self.games@);
        sum
    }

    /// Whether any game of this contestant is still in progress.
    pub fn has_game_in_progress(&self) -> (r: bool)
        ensures
            r == has_pending(self.games@),
    {
        let mut i: usize = 0;
        while i < self.games.len()
            invariant
                i <= self.games@.len(),
                forall|k: int| 0 <= k < i ==> (#[trigger] self.games@[k]).game_result != GameResult::InProgress,
            decreases self.games@.len() - i,
        {
            if self.games[i].is_in_progress() {
                return true;
            }
            i = i + 1;
        }
        false
    }

    /// Whether this contestant has received a bye before.
    pub fn has_had_bye(&self) -> (r: bool)
        ensures
            r == had_bye(self.games@),
    {
        let mut i: usize = 0;
        while i < self.games.len()
            invariant
                i <= self.games@.len(),
                forall|k: int| 0 <= k < i ==> (#[trigger] self.games@[k]).opponent.is_some(),
            decreases self.games@.len() - i,
        {
            if self.games[i].opponent.is_none() {
                return true;
            }
            i = i + 1;
        }
        false
    }

    /// Number of games this contestant has played against `other`.
    pub fn meetings_with(&self, other: usize) -> (r: usize)
        ensures
            r == meetings(self.games@, other),
    {
        let mut count: usize = 0;
        let mut i: usize = 0;
        while i < self.games.len()
            invariant
                i <= self.games@.len(),
                count == meetings(self.games@.subrange(0, i as int), other),
            decreases self.games@.len() - i,
        {
            proof {
                lemma_prefix_step(self.games@, i as int);
                lemma_meetings_le_len(self.games@.subrange(0, i as int), other);
            }
            if self.games[i].opponent == Some(other) {
                count = count + 1;
            }
            i = i + 1;
        }
        assert(self.games@.subrange(0, i as int) =~= self.games@);
        count
    }

    /// Games this contestant moved first minus games it moved last.
    pub fn first_move_balance(&self) -> (r: i64)
        requires
            self.games@.len() <= MAX_GAMES,
        ensures
            r == first_move_balance(self.games@),
    {
        let mut bal: i64 = 0;
        let mut i: usize = 0;
        while i < self.games.len()
            invariant
                i <= self.games@.len() <= MAX_GAMES,
                bal == first_move_balance(self.games@.subrange(0, i as int)),
            decreases self.games@.len() - i,
        {
            proof {
                lemma_prefix_step(self.games@, i as int);
                lemma_balance_bounded(self.games@.subrange(0, i as int));
            }
            match self.games[i].advantage {
                Some(FirstMoverAdvantage::First) => { bal = bal + 1; },
                Some(FirstMoverAdvantage::Last) => { bal = bal - 1; },
                None => {},
            }
            i = i + 1;
        }
        assert(self.games@.subrange(0, i as int) =~= self.games@);
        bal
    }

    /// Games played minus games won.
    pub fn loss_count(&self) -> (r: usize)
        ensures
            r == losses_of(self.games@),
    {
        let w = self.win_count();
        proof {
            lemma_wins_le_len(self.games@);
        }
        self.games.len() - w
    }

    /// The ranking key of the contestant at `id` of `arena`.
    pub fn rank_key(arena: &Vec<Contestant>, id: usize) -> (r: RankKey)
        requires
            arena_ok(arena@),
            id < arena@.len(),
        ensures
            r == key_at(arena@, id as int),
    {
        let c = &arena[id];
        proof {
            lemma_wins_le_len(c.games@);
        }
        RankKey {
            wins: c.win_count() as u64,
            opponent_wins: c.opponent_win_count(arena),
            sonneborn_berger: c.sonneborn_berger(arena),
            seed: c.seed,
        }
    }
}

} // verus!
