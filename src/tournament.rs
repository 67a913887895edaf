use vstd::prelude::*;
use crate::contestant::{
    Contestant, MAX_GAMES, arena_ok, first_move_balance, has_pending, losses_of, opponents_valid,
};
use crate::game::{FirstMoverAdvantage, Game, GameResult};
use crate::pairing::{
    choices_minimal, in_pairs, lemma_in_pairs_push, lemma_repeats_forced, limit_feasible, matches_pool,
    over_limit, pair_over, pair_round, pairs_disjoint, plays_in, repeats_forced, within_limit,
};
use crate::ranking::{
    arena_keys, bye_fair, ids_in, lemma_prefix_contains, lemma_push_contains, rank_keys, sort_by_rank, take_bye,
};
use crate::seed::Seed;

verus! {

/// The one way round generation fails.
#[derive(Clone, Copy, Debug, PartialEq, Eq, Structural)]
pub enum RoundError {
    /// An active contestant still has a game in progress.
    RoundInProgress,
}

/// One pairing of a round: `first` against `second`, and the side `first`
/// takes when the first move is counted (`None` when it is not).
#[derive(Clone, Copy, Debug, PartialEq, Eq, Structural)]
pub struct Pairing {
    pub first: usize,
    pub second: usize,
    pub advantage: Option<FirstMoverAdvantage>,
}

/// What one call of round generation produced.
pub struct RoundPairings {
    pub round: u64,
    pub pairs: Vec<Pairing>,
    pub bye: Option<usize>,
}

/// A Swiss elimination tournament over an arena of contestants.
///
/// `active` and `eliminated` hold arena indices and split the arena between
/// them. `current` holds the pairings of the latest round.
pub struct SwissElimination {
    pub contestants: Vec<Contestant>,
    pub active: Vec<usize>,
    pub eliminated: Vec<usize>,
    pub current: Vec<Pairing>,
    pub round: u64,
    pub allowed_losses: u64,
    pub first_move_advantage: bool,
    pub max_repeats: u64,
}

/// The contestant at `id` has lost `allowed_losses` games or more.
pub open spec fn out_of_tournament(arena: Seq<Contestant>, id: usize, allowed_losses: u64) -> bool {
    losses_of(arena[id as int].games@) >= allowed_losses
}

/// Some active contestant has a game in progress.
pub open spec fn round_pending(arena: Seq<Contestant>, active: Seq<usize>) -> bool {
    exists|k: int| 0 <= k < active.len() && has_pending(arena[#[trigger] active[k] as int].games@)
}

/// The contestants of each pairing, as a pair of indices.
pub open spec fn pair_ids(ps: Seq<Pairing>) -> Seq<(usize, usize)> {
    ps.map_values(|p: Pairing| (p.first, p.second))
}

pub open spec fn opposite(a: Option<FirstMoverAdvantage>) -> Option<FirstMoverAdvantage> {
    match a {
        Some(FirstMoverAdvantage::First) => Some(FirstMoverAdvantage::Last),
        Some(FirstMoverAdvantage::Last) => Some(FirstMoverAdvantage::First),
        None => None,
    }
}

/// Side given to `a` against `b`: the one that has moved first less often
/// (by firsts minus lasts) moves first, and `a` does on a tie.
pub open spec fn advantage_for(arena: Seq<Contestant>, first_move: bool, a: usize, b: usize) -> Option<FirstMoverAdvantage> {
    if !first_move {
        None
    } else if first_move_balance(arena[a as int].games@) <= first_move_balance(arena[b as int].games@) {
        Some(FirstMoverAdvantage::First)
    } else {
        Some(FirstMoverAdvantage::Last)
    }
}

/// The game a pairing adds to its first contestant.
pub open spec fn first_game(p: Pairing) -> Game {
    Game { game_result: GameResult::InProgress, advantage: p.advantage, opponent: Some(p.second) }
}

/// The game a pairing adds to its second contestant.
pub open spec fn second_game(p: Pairing) -> Game {
    Game { game_result: GameResult::InProgress, advantage: opposite(p.advantage), opponent: Some(p.first) }
}

pub open spec fn bye_game() -> Game {
    Game { game_result: GameResult::Win, advantage: None, opponent: None }
}

/// `new` is `old` with the round's games appended: an undecided game for
/// both sides of every pairing, a won game for the bye, nothing for anyone
/// else. Seeds and names stay.
pub open spec fn games_recorded(old: Seq<Contestant>, new: Seq<Contestant>, ps: Seq<Pairing>, bye: Option<usize>) -> bool {
    &&& new.len() == old.len()
    &&& forall|i: int| 0 <= i < old.len() ==> (#[trigger] new[i]).seed == old[i].seed && new[i].name == old[i].name
    &&& forall|k: int| 0 <= k < ps.len() ==> new[(#[trigger] ps[k]).first as int].games@ == old[ps[k].first as int].games@.push(first_game(ps[k]))
    &&& forall|k: int| 0 <= k < ps.len() ==> new[(#[trigger] ps[k]).second as int].games@ == old[ps[k].second as int].games@.push(second_game(ps[k]))
    &&& bye matches Some(y) ==> new[y as int].games@ == old[y as int].games@.push(bye_game())
    &&& forall|i: usize| 0 <= i < old.len() && !in_pairs(pair_ids(ps), i) && bye != Some(i) ==> (#[trigger] new[i as int]).games@ == old[i as int].games@
}

proof fn lemma_push_opponent_valid(games: Seq<Game>, g: Game, n: int)
    requires
        opponents_valid(games, n),
        g.opponent matches Some(o) ==> o < n,
    ensures
        opponents_valid(games.push(g), n),
{
    assert forall|k: int| 0 <= k < games.push(g).len() && (#[trigger] games.push(g)[k]).opponent.is_some()
        implies games.push(g)[k].opponent.unwrap() < n by {
        if k < games.len() {
            assert(games.push(g)[k] == games[k]);
        }
    }
}

/// Appends `g` to the games of the contestant at `id`.
fn push_game(arena: &mut Vec<Contestant>, id: usize, g: Game)
    requires
        id < old(arena)@.len(),
    ensures
        final(arena)@.len() == old(arena)@.len(),
        forall|i: int| 0 <= i < old(arena)@.len() && i != id ==> #[trigger] final(arena)@[i] == old(arena)@[i],
        final(arena)@[id as int].games@ == old(arena)@[id as int].games@.push(g),
        final(arena)@[id as int].seed == old(arena)@[id as int].seed,
        final(arena)@[id as int].name == old(arena)@[id as int].name,
{
    arena[id].games.push(g);
}

/// Every opponent index is in range and every game count stays within
/// `bound`.
pub open spec fn arena_within(arena: Seq<Contestant>, bound: int) -> bool {
    &&& arena_ok(arena)
    &&& forall|i: int| 0 <= i < arena.len() ==> (#[trigger] arena[i]).games@.len() <= bound
}

/// Appends the games of one pairing to the arena.
fn record_pairing(arena: &mut Vec<Contestant>, p: Pairing, bound: u64)
    requires
        arena_within(old(arena)@, bound as int),
        1 <= bound <= MAX_GAMES,
        p.first != p.second,
        p.first < old(arena)@.len(),
        p.second < old(arena)@.len(),
        old(arena)@[p.first as int].games@.len() < bound,
        old(arena)@[p.second as int].games@.len() < bound,
    ensures
        arena_within(final(arena)@, bound as int),
        final(arena)@.len() == old(arena)@.len(),
        forall|i: int| 0 <= i < old(arena)@.len() && i != p.first && i != p.second ==> #[trigger] final(arena)@[i] == old(arena)@[i],
        forall|i: int| 0 <= i < old(arena)@.len() ==> (#[trigger] final(arena)@[i]).seed == old(arena)@[i].seed && final(arena)@[i].name == old(arena)@[i].name,
        final(arena)@[p.first as int].games@ == old(arena)@[p.first as int].games@.push(first_game(p)),
        final(arena)@[p.second as int].games@ == old(arena)@[p.second as int].games@.push(second_game(p)),
{
    let ghost a0 = arena@;
    proof {
        lemma_push_opponent_valid(a0[p.first as int].games@, first_game(p), a0.len() as int);
        lemma_push_opponent_valid(a0[p.second as int].games@, second_game(p), a0.len() as int);
    }
    push_game(arena, p.first, first_game_of(p));
    push_game(arena, p.second, second_game_of(p));
    proof {
        assert forall|i: int| 0 <= i < arena@.len() implies {
            &&& (#[trigger] arena@[i]).games@.len() <= MAX_GAMES
            &&& opponents_valid(arena@[i].games@, arena@.len() as int)
        } by {
            assert(a0[i].games@.len() <= bound);
            assert(opponents_valid(a0[i].games@, a0.len() as int));
        }
        assert forall|i: int| 0 <= i < arena@.len() implies (#[trigger] arena@[i]).games@.len() <= bound by {
            assert(a0[i].games@.len() <= bound);
        }
    }
}

/// Appends the bye's game to the arena.
fn record_bye(arena: &mut Vec<Contestant>, y: usize, bound: u64)
    requires
        arena_within(old(arena)@, bound as int),
        1 <= bound <= MAX_GAMES,
        y < old(arena)@.len(),
        old(arena)@[y as int].games@.len() < bound,
    ensures
        arena_within(final(arena)@, bound as int),
        final(arena)@.len() == old(arena)@.len(),
        forall|i: int| 0 <= i < old(arena)@.len() && i != y ==> #[trigger] final(arena)@[i] == old(arena)@[i],
        forall|i: int| 0 <= i < old(arena)@.len() ==> (#[trigger] final(arena)@[i]).seed == old(arena)@[i].seed && final(arena)@[i].name == old(arena)@[i].name,
        final(arena)@[y as int].games@ == old(arena)@[y as int].games@.push(bye_game()),
{
    let ghost a0 = arena@;
    proof {
        lemma_push_opponent_valid(a0[y as int].games@, bye_game(), a0.len() as int);
    }
    push_game(arena, y, Game::bye());
    proof {
        assert forall|i: int| 0 <= i < arena@.len() implies {
            &&& (#[trigger] arena@[i]).games@.len() <= MAX_GAMES
            &&& opponents_valid(arena@[i].games@, arena@.len() as int)
        } by {
            assert(a0[i].games@.len() <= bound);
            assert(opponents_valid(a0[i].games@, a0.len() as int));
        }
    }
}

/// Appends the games of a round to the arena.
fn record_round(arena: &mut Vec<Contestant>, ps: &Vec<Pairing>, bye: Option<usize>, bound: u64)
    requires
        arena_within(old(arena)@, bound - 1),
        1 <= bound <= MAX_GAMES,
        pairs_disjoint(pair_ids(ps@)),
        forall|k: int| 0 <= k < ps@.len() ==> (#[trigger] ps@[k]).first < old(arena)@.len() && ps@[k].second < old(arena)@.len(),
        bye matches Some(y) ==> y < old(arena)@.len() && !in_pairs(pair_ids(ps@), y),
    ensures
        games_recorded(old(arena)@, final(arena)@, ps@, bye),
        arena_within(final(arena)@, bound as int),
{
    let ghost a0 = old(arena)@;
    let ghost ids = pair_ids(ps@);
    let mut k: usize = 0;
    while k < ps.len()
        invariant
            k <= ps@.len(),
            ids == pair_ids(ps@),
            1 <= bound <= MAX_GAMES,
            pairs_disjoint(ids),
            forall|j: int| 0 <= j < ps@.len() ==> (#[trigger] ps@[j]).first < a0.len() && ps@[j].second < a0.len(),
            arena@.len() == a0.len(),
            arena_within(a0, bound - 1),
            arena_within(arena@, bound as int),
            forall|i: int| 0 <= i < a0.len() ==> (#[trigger] arena@[i]).seed == a0[i].seed && arena@[i].name == a0[i].name,
            forall|j: int| 0 <= j < k ==> arena@[(#[trigger] ps@[j]).first as int].games@ == a0[ps@[j].first as int].games@.push(first_game(ps@[j])),
            forall|j: int| 0 <= j < k ==> arena@[(#[trigger] ps@[j]).second as int].games@ == a0[ps@[j].second as int].games@.push(second_game(ps@[j])),
            forall|i: usize| 0 <= i < a0.len() && !in_pairs(ids.subrange(0, k as int), i) ==> (#[trigger] arena@[i as int]).games@ == a0[i as int].games@,
        decreases ps@.len() - k,
    {
        let p = ps[k];
        proof {
            step_facts(ids, k as int);
            assert(ids[k as int] == (p.first, p.second));
            assert(a0[p.first as int].games@.len() <= bound - 1);
            assert(a0[p.second as int].games@.len() <= bound - 1);
        }
        let ghost before = arena@;
        record_pairing(arena, p, bound);
        proof {
            assert forall|i: int| 0 <= i < a0.len() implies (#[trigger] arena@[i]).seed == a0[i].seed && arena@[i].name == a0[i].name by {
                assert(before[i].seed == a0[i].seed && before[i].name == a0[i].name);
            }
            assert forall|j: int| 0 <= j < k + 1 implies arena@[(#[trigger] ps@[j]).first as int].games@ == a0[ps@[j].first as int].games@.push(first_game(ps@[j])) by {
                if j < k {
                    assert(ids[j] == (ps@[j].first, ps@[j].second));
                    assert(!plays_in(ids[j], p.first) && !plays_in(ids[j], p.second));
                    assert(arena@[ps@[j].first as int] == before[ps@[j].first as int]);
                }
            }
            assert forall|j: int| 0 <= j < k + 1 implies arena@[(#[trigger] ps@[j]).second as int].games@ == a0[ps@[j].second as int].games@.push(second_game(ps@[j])) by {
                if j < k {
                    assert(ids[j] == (ps@[j].first, ps@[j].second));
                    assert(!plays_in(ids[j], p.first) && !plays_in(ids[j], p.second));
                    assert(arena@[ps@[j].second as int] == before[ps@[j].second as int]);
                }
            }
            assert forall|i: usize| 0 <= i < a0.len() && !in_pairs(ids.subrange(0, k + 1), i) implies (#[trigger] arena@[i as int]).games@ == a0[i as int].games@ by {
                assert(i != p.first && i != p.second);
                assert(!in_pairs(ids.subrange(0, k as int), i));
                assert(arena@[i as int] == before[i as int]);
            }
        }
        k = k + 1;
    }
    proof {
        assert(ids.subrange(0, k as int) =~= ids);
    }
    if let Some(y) = bye {
        record_bye(arena, y, bound);
        proof {
            assert forall|j: int| 0 <= j < ps@.len() implies arena@[(#[trigger] ps@[j]).first as int].games@ == a0[ps@[j].first as int].games@.push(first_game(ps@[j])) && arena@[ps@[j].second as int].games@ == a0[ps@[j].second as int].games@.push(second_game(ps@[j])) by {
                assert(ids[j] == (ps@[j].first, ps@[j].second));
                assert(plays_in(ids[j], ps@[j].first) && plays_in(ids[j], ps@[j].second));
            }
        }
    }
}

/// Facts about the pairing at `k` against the pairings before it: it plays
/// in none of them, and the prefix one longer adds exactly its two players.
proof fn step_facts(ids: Seq<(usize, usize)>, k: int)
    requires
        pairs_disjoint(ids),
        0 <= k < ids.len(),
    ensures
        ids[k].0 != ids[k].1,
        !in_pairs(ids.subrange(0, k), ids[k].0),
        !in_pairs(ids.subrange(0, k), ids[k].1),
        forall|i: usize| #[trigger] in_pairs(ids.subrange(0, k + 1), i) <==> (in_pairs(ids.subrange(0, k), i) || i == ids[k].0 || i == ids[k].1),
        forall|j: int| 0 <= j < k ==> !plays_in(#[trigger] ids[j], ids[k].0) && !plays_in(ids[j], ids[k].1),
{
    assert(ids.subrange(0, k + 1) =~= ids.subrange(0, k).push(ids[k]));
    assert forall|i: usize| #[trigger] in_pairs(ids.subrange(0, k + 1), i) <==> (in_pairs(ids.subrange(0, k), i) || i == ids[k].0 || i == ids[k].1) by {
        lemma_in_pairs_push(ids.subrange(0, k), ids[k], i);
    }
    assert forall|j: int| 0 <= j < k implies !plays_in(#[trigger] ids[j], ids[k].0) && !plays_in(ids[j], ids[k].1) by {
        assert(plays_in(ids[k], ids[k].0));
        assert(plays_in(ids[k], ids[k].1));
    }
    if in_pairs(ids.subrange(0, k), ids[k].0) {
        let j = choose|j: int| 0 <= j < k && #[trigger] plays_in(ids.subrange(0, k)[j], ids[k].0);
        assert(ids.subrange(0, k)[j] == ids[j]);
    }
    if in_pairs(ids.subrange(0, k), ids[k].1) {
        let j = choose|j: int| 0 <= j < k && #[trigger] plays_in(ids.subrange(0, k)[j], ids[k].1);
        assert(ids.subrange(0, k)[j] == ids[j]);
    }
}

fn first_game_of(p: Pairing) -> (g: Game)
    ensures
        g == first_game(p),
{
    Game::in_progress(p.second, p.advantage)
}

fn second_game_of(p: Pairing) -> (g: Game)
    ensures
        g == second_game(p),
{
    let adv = match p.advantage {
        Some(FirstMoverAdvantage::First) => Some(FirstMoverAdvantage::Last),
        Some(FirstMoverAdvantage::Last) => Some(FirstMoverAdvantage::First),
        None => None,
    };
    Game::in_progress(p.first, adv)
}

/// Gives each pair of `raw` its first-move side.
fn make_pairings(arena: &Vec<Contestant>, raw: &Vec<(usize, usize)>, first_move: bool) -> (ps: Vec<Pairing>)
    requires
        arena_ok(arena@),
        forall|k: int| 0 <= k < raw@.len() ==> (#[trigger] raw@[k]).0 < arena@.len() && raw@[k].1 < arena@.len(),
    ensures
        pair_ids(ps@) == raw@,
        forall|k: int| 0 <= k < ps@.len() ==> (#[trigger] ps@[k]).advantage == advantage_for(arena@, first_move, ps@[k].first, ps@[k].second),
{
    let mut ps: Vec<Pairing> = Vec::new();
    let mut k: usize = 0;
    while k < raw.len()
        invariant
            k <= raw@.len(),
            arena_ok(arena@),
            forall|j: int| 0 <= j < raw@.len() ==> (#[trigger] raw@[j]).0 < arena@.len() && raw@[j].1 < arena@.len(),
            ps@.len() == k,
            forall|j: int| 0 <= j < k ==> (#[trigger] ps@[j]).first == raw@[j].0 && ps@[j].second == raw@[j].1,
            forall|j: int| 0 <= j < k ==> (#[trigger] ps@[j]).advantage == advantage_for(arena@, first_move, ps@[j].first, ps@[j].second),
        decreases raw@.len() - k,
    {
        let (a, b) = raw[k];
        let advantage = if !first_move {
            None
        } else if arena[a].first_move_balance() <= arena[b].first_move_balance() {
            Some(FirstMoverAdvantage::First)
        } else {
            Some(FirstMoverAdvantage::Last)
        };
        ps.push(Pairing { first: a, second: b, advantage });
        k = k + 1;
    }
    assert(pair_ids(ps@) =~= raw@);
    ps
}

/// What a successful round generation does to the tournament: the round
/// counter advances, contestants that reached the allowed losses move from
/// active to eliminated (appended, nobody comes back), the remaining active
/// contestants are split into disjoint pairings and at most one fair bye,
/// the pairings stay within the repeat limit whenever some pairing-off of the
/// contestants other than the bye does, they are otherwise the cheapest choice
/// for the highest ranked contestant left at each step, and each contestant
/// of the round gets exactly one new game.
pub open spec fn round_generated(old: SwissElimination, new: SwissElimination, rp: RoundPairings) -> bool {
    let arena = old.contestants@;
    let ids = pair_ids(rp.pairs@);
    &&& new.round == old.round + 1
    &&& rp.round == new.round
    &&& new.allowed_losses == old.allowed_losses
    &&& new.first_move_advantage == old.first_move_advantage
    &&& new.max_repeats == old.max_repeats
    &&& new.eliminated@.len() >= old.eliminated@.len()
    &&& new.eliminated@.subrange(0, old.eliminated@.len() as int) == old.eliminated@
    &&& forall|x: usize| #[trigger] new.active@.contains(x) <==> (old.active@.contains(x)
        && !out_of_tournament(arena, x, old.allowed_losses))
    &&& forall|x: usize| #[trigger] new.eliminated@.contains(x) <==> (old.eliminated@.contains(x) || (
        old.active@.contains(x) && out_of_tournament(arena, x, old.allowed_losses)))
    &&& pairs_disjoint(ids)
    &&& forall|x: usize| #[trigger] new.active@.contains(x) <==> (in_pairs(ids, x) || rp.bye == Some(x))
    &&& rp.bye matches Some(y) ==> !in_pairs(ids, y)
    &&& bye_fair(arena, new.active@, rp.bye)
    &&& choices_minimal(arena, arena_keys(arena), old.first_move_advantage, old.max_repeats, ids)
        || within_limit(arena, old.max_repeats, ids)
    &&& (exists|m: Seq<(usize, usize)>| #![trigger within_limit(arena, old.max_repeats, m)]
        pairs_disjoint(m) && within_limit(arena, old.max_repeats, m)
            && forall|x: usize| #[trigger] in_pairs(m, x) <==> (new.active@.contains(x) && rp.bye != Some(x)))
        ==> within_limit(arena, old.max_repeats, ids)
    &&& forall|k: int| 0 <= k < rp.pairs@.len() ==> (#[trigger] rp.pairs@[k]).advantage == advantage_for(
        arena, old.first_move_advantage, rp.pairs@[k].first, rp.pairs@[k].second)
    &&& games_recorded(arena, new.contestants@, rp.pairs@, rp.bye)
    &&& new.current@ == rp.pairs@
}

/// The game `g` with its result set to `res`.
pub open spec fn decided(g: Game, res: GameResult) -> Game {
    Game { game_result: res, ..g }
}

/// The last game of `games` is the undecided game against `other`.
pub open spec fn awaits_result(games: Seq<Game>, other: usize) -> bool {
    &&& games.len() > 0
    &&& games.last().game_result == GameResult::InProgress
    &&& games.last().opponent == Some(other)
}

/// Sets the result of the last game of the contestant at `id`.
fn decide_last(arena: &mut Vec<Contestant>, id: usize, res: GameResult)
    requires
        id < old(arena)@.len(),
        old(arena)@[id as int].games@.len() > 0,
    ensures
        final(arena)@.len() == old(arena)@.len(),
        forall|i: int| 0 <= i < old(arena)@.len() && i != id ==> #[trigger] final(arena)@[i] == old(arena)@[i],
        final(arena)@[id as int].games@ == old(arena)@[id as int].games@.update(
            old(arena)@[id as int].games@.len() - 1,
            decided(old(arena)@[id as int].games@.last(), res),
        ),
        final(arena)@[id as int].seed == old(arena)@[id as int].seed,
        final(arena)@[id as int].name == old(arena)@[id as int].name,
{
    let last = arena[id].games.len() - 1;
    let mut g = arena[id].games[last];
    g.game_result = res;
    arena[id].games[last] = g;
}

impl SwissElimination {
    /// The tournament's invariant.
    pub open spec fn wf(&self) -> bool {
        let n = self.contestants@.len() as int;
        &&& arena_ok(self.contestants@)
        &&& self.round <= MAX_GAMES
        &&& self.allowed_losses >= 1
        &&& forall|i: int| 0 <= i < n ==> (#[trigger] self.contestants@[i]).games@.len() <= self.round
        &&& ids_in(self.active@, n)
        &&& ids_in(self.eliminated@, n)
        &&& self.active@.no_duplicates()
        &&& self.eliminated@.no_duplicates()
        &&& forall|x: usize| #[trigger] self.active@.contains(x) ==> !self.eliminated@.contains(x)
        &&& forall|x: usize| 0 <= x < n ==> (#[trigger] self.active@.contains(x) || self.eliminated@.contains(x))
        &&& forall|k: int| 0 <= k < self.current@.len() ==> (#[trigger] self.current@[k]).first < n && self.current@[k].second < n
    }

    /// An empty tournament. A contestant leaves after `allowed_losses`
    /// losses. A pairing may repeat an earlier meeting of the same two
    /// contestants at most `max_repeats` times; a round breaks that limit only
    /// where no pairing-off of its contestants keeps it.
    pub fn new(allowed_losses: u64, first_move_advantage: bool, max_repeats: u64) -> (t: SwissElimination)
        requires
            allowed_losses >= 1,
        ensures
            t.wf(),
            t.contestants@.len() == 0,
            t.active@.len() == 0,
            t.eliminated@.len() == 0,
            t.current@.len() == 0,
            t.round == 0,
            t.allowed_losses == allowed_losses,
            t.first_move_advantage == first_move_advantage,
            t.max_repeats == max_repeats,
    {
        SwissElimination {
            contestants: Vec::new(),
            active: Vec::new(),
            eliminated: Vec::new(),
            current: Vec::new(),
            round: 0,
            allowed_losses,
            first_move_advantage,
            max_repeats,
        }
    }

    /// Registers a contestant before the first round and returns its index.
    pub fn add_contestant(&mut self, seed: Seed, name: String) -> (id: usize)
        requires
            old(self).wf(),
            old(self).round == 0,
            old(self).contestants@.len() < usize::MAX,
        ensures
            final(self).wf(),
            id == old(self).contestants@.len(),
            final(self).contestants@.len() == id + 1,
            final(self).contestants@[id as int].seed == seed,
            final(self).contestants@[id as int].name@ == name@,
            final(self).contestants@[id as int].games@.len() == 0,
            forall|i: int| 0 <= i < id ==> #[trigger] final(self).contestants@[i] == old(self).contestants@[i],
            final(self).active@ == old(self).active@.push(id),
            final(self).eliminated@ == old(self).eliminated@,
            final(self).current@ == old(self).current@,
            final(self).round == old(self).round,
            final(self).allowed_losses == old(self).allowed_losses,
            final(self).first_move_advantage == old(self).first_move_advantage,
            final(self).max_repeats == old(self).max_repeats,
    {
        let id = self.contestants.len();
        proof {
            lemma_push_contains(self.active@, id);
            assert(!self.active@.contains(id));
        }
        self.contestants.push(Contestant { seed, name, games: Vec::new() });
        self.active.push(id);
        proof {
            let arena = self.contestants@;
            assert forall|i: int| 0 <= i < arena.len() implies {
                &&& (#[trigger] arena[i]).games@.len() <= MAX_GAMES
                &&& opponents_valid(arena[i].games@, arena.len() as int)
            } by {
                if i < id {
                    assert(arena[i] == old(self).contestants@[i]);
                    assert(opponents_valid(arena[i].games@, id as int));
                }
            }
            assert(self.active@.no_duplicates()) by {
                assert forall|i: int, j: int| 0 <= i < j < self.active@.len() implies self.active@[i] != self.active@[j] by {
                    if j == self.active@.len() - 1 {
                        assert(old(self).active@.contains(self.active@[i]));
                    }
                }
            }
            assert forall|x: usize| #[trigger] self.eliminated@.contains(x) implies x < id by {
                let k = choose|k: int| 0 <= k < self.eliminated@.len() && self.eliminated@[k] == x;
            }
        }
        id
    }

    /// Whether some active contestant still has a game in progress.
    pub fn round_in_progress(&self) -> (r: bool)
        requires
            self.wf(),
        ensures
            r == round_pending(self.contestants@, self.active@),
    {
        let mut i: usize = 0;
        while i < self.active.len()
            invariant
                self.wf(),
                i <= self.active@.len(),
                forall|k: int| 0 <= k < i ==> !has_pending(self.contestants@[#[trigger] self.active@[k] as int].games@),
            decreases self.active@.len() - i,
        {
            if self.contestants[self.active[i]].has_game_in_progress() {
                return true;
            }
            i = i + 1;
        }
        false
    }

    /// Splits the active contestants into those that stay and those that
    /// have reached the allowed number of losses, keeping their order.
    pub fn split_eliminated(&self) -> (r: (Vec<usize>, Vec<usize>))
        requires
            self.wf(),
        ensures
            r.0@.no_duplicates(),
            r.1@.no_duplicates(),
            ids_in(r.0@, self.contestants@.len() as int),
            ids_in(r.1@, self.contestants@.len() as int),
            r.1@.subrange(0, self.eliminated@.len() as int) == self.eliminated@,
            r.1@.len() >= self.eliminated@.len(),
            forall|x: usize| #[trigger] r.0@.contains(x) <==> (self.active@.contains(x)
                && !out_of_tournament(self.contestants@, x, self.allowed_losses)),
            forall|x: usize| #[trigger] r.1@.contains(x) <==> (self.eliminated@.contains(x) || (
                self.active@.contains(x) && out_of_tournament(self.contestants@, x, self.allowed_losses))),
    {
        let mut stay: Vec<usize> = Vec::new();
        let mut out: Vec<usize> = Vec::new();
        let mut j: usize = 0;
        while j < self.eliminated.len()
            invariant
                self.wf(),
                j <= self.eliminated@.len(),
                out@ == self.eliminated@.subrange(0, j as int),
            decreases self.eliminated@.len() - j,
        {
            out.push(self.eliminated[j]);
            proof {
                assert(out@ =~= self.eliminated@.subrange(0, j + 1));
            }
            j = j + 1;
        }
        proof {
            assert(out@ =~= self.eliminated@);
        }
        let ghost act = self.active@;
        let mut i: usize = 0;
        while i < self.active.len()
            invariant
                self.wf(),
                act == self.active@,
                i <= act.len(),
                stay@.no_duplicates(),
                out@.no_duplicates(),
                ids_in(stay@, self.contestants@.len() as int),
                ids_in(out@, self.contestants@.len() as int),
                out@.len() >= self.eliminated@.len(),
                out@.subrange(0, self.eliminated@.len() as int) == self.eliminated@,
                forall|x: usize| #[trigger] stay@.contains(x) <==> (act.subrange(0, i as int).contains(x)
                    && !out_of_tournament(self.contestants@, x, self.allowed_losses)),
                forall|x: usize| #[trigger] out@.contains(x) <==> (self.eliminated@.contains(x) || (
                    act.subrange(0, i as int).contains(x) && out_of_tournament(self.contestants@, x, self.allowed_losses))),
            decreases act.len() - i,
        {
            let id = self.active[i];
            proof {
                lemma_prefix_contains(act, i as int);
                assert(!act.subrange(0, i as int).contains(id)) by {
                    if act.subrange(0, i as int).contains(id) {
                        let k = choose|k: int| 0 <= k < i && act.subrange(0, i as int)[k] == id;
                        assert(act[k] == act[i as int]);
                    }
                }
                assert(act.contains(id));
                assert(!self.eliminated@.contains(id));
                lemma_push_contains(stay@, id);
                lemma_push_contains(out@, id);
            }
            let ghost s0 = stay@;
            let ghost o0 = out@;
            if self.contestants[id].loss_count() as u64 >= self.allowed_losses {
                out.push(id);
                proof {
                    assert(out@.subrange(0, self.eliminated@.len() as int) =~= o0.subrange(0, self.eliminated@.len() as int));
                    assert(out@.no_duplicates()) by {
                        assert forall|a: int, b: int| 0 <= a < b < out@.len() implies out@[a] != out@[b] by {
                            if b == o0.len() {
                                assert(o0.contains(out@[a]));
                            }
                        }
                    }
                }
            } else {
                stay.push(id);
                proof {
                    assert(stay@.no_duplicates()) by {
                        assert forall|a: int, b: int| 0 <= a < b < stay@.len() implies stay@[a] != stay@[b] by {
                            if b == s0.len() {
                                assert(s0.contains(stay@[a]));
                            }
                        }
                    }
                }
            }
            i = i + 1;
        }
        proof {
            assert(act.subrange(0, i as int) =~= act);
        }
        (stay, out)
    }
    /// Generates the next round, or fails with `RoundInProgress`, changing
    /// nothing, while an active contestant has a game in progress.
    pub fn generate_pairings(&mut self) -> (r: Result<RoundPairings, RoundError>)
        requires
            old(self).wf(),
            old(self).round < MAX_GAMES,
        ensures
            final(self).wf(),
            r is Err <==> round_pending(old(self).contestants@, old(self).active@),
            r is Err ==> *final(self) == *old(self),
            r matches Ok(rp) ==> round_generated(*old(self), *final(self), rp),
    {
        if self.round_in_progress() {
            return Err(RoundError::RoundInProgress);
        }
        let ghost before = *self;
        let ghost arena = self.contestants@;
        let n = self.contestants.len();
        let (stay, out) = self.split_eliminated();
        let keys = rank_keys(&self.contestants);
        proof {
            assert(keys@ =~= arena_keys(arena));
        }
        let ids = stay.clone();
        proof {
            assert(ids@ =~= stay@);
        }
        let mut order = sort_by_rank(ids, &keys);
        let ghost sorted = order@;
        let bye = take_bye(&mut order, &self.contestants, &keys);
        let ghost pool = order@;
        let raw = pair_round(order, &self.contestants, &keys, self.first_move_advantage, self.max_repeats);
        proof {
            assert forall|k: int| 0 <= k < raw@.len() implies (#[trigger] raw@[k]).0 < n && raw@[k].1 < n by {
                assert(plays_in(raw@[k], raw@[k].0) && plays_in(raw@[k], raw@[k].1));
                assert(in_pairs(raw@, raw@[k].0) && in_pairs(raw@, raw@[k].1));
            }
        }
        let plist = make_pairings(&self.contestants, &raw, self.first_move_advantage);
        let new_round = self.round + 1;
        proof {
            if let Some(y) = bye {
                assert(sorted.contains(y));
                assert(stay@.contains(y));
                let k = choose|k: int| 0 <= k < stay@.len() && stay@[k] == y;
            }
            assert forall|k: int| 0 <= k < plist@.len() implies (#[trigger] plist@[k]).first < n && plist@[k].second < n by {
                assert(pair_ids(plist@)[k] == raw@[k]);
            }
        }
        record_round(&mut self.contestants, &plist, bye, new_round);
        let current = plist.clone();
        proof {
            assert(current@ =~= plist@);
        }
        self.active = stay;
        self.eliminated = out;
        self.round = new_round;
        self.current = current;
        let rp = RoundPairings { round: new_round, pairs: plist, bye };
        proof {
            assert forall|x: usize| #[trigger] self.active@.contains(x) <==> sorted.contains(x) by {}
            assert(bye_fair(arena, self.active@, bye));
            let mx = before.max_repeats;
            if exists|m: Seq<(usize, usize)>| #![trigger within_limit(arena, mx, m)]
                pairs_disjoint(m) && within_limit(arena, mx, m)
                    && forall|x: usize| #[trigger] in_pairs(m, x) <==> (self.active@.contains(x) && bye != Some(x)) {
                let m = choose|m: Seq<(usize, usize)>| #![trigger within_limit(arena, mx, m)]
                    pairs_disjoint(m) && within_limit(arena, mx, m)
                        && forall|x: usize| #[trigger] in_pairs(m, x) <==> (self.active@.contains(x) && bye != Some(x));
                assert forall|x: usize| #[trigger] in_pairs(m, x) <==> pool.contains(x) by {
                    assert(sorted.contains(x) <==> (pool.contains(x) || bye == Some(x)));
                }
                assert(matches_pool(pool, m));
                assert(limit_feasible(arena, mx, pool));
            }
            assert forall|x: usize| #[trigger] self.active@.contains(x) implies !self.eliminated@.contains(x) by {
                assert(before.active@.contains(x));
                assert(!before.eliminated@.contains(x));
            }
            assert forall|x: usize| 0 <= x < n implies (#[trigger] self.active@.contains(x) || self.eliminated@.contains(x)) by {
                assert(before.active@.contains(x) || before.eliminated@.contains(x));
            }
        }
        Ok(rp)
    }
    /// Whether a game of the current pairing at `index` is still undecided.
    pub fn pairing_in_progress(&self, index: usize) -> (r: bool)
        requires
            self.wf(),
            index < self.current@.len(),
        ensures
            r == (has_pending(self.contestants@[self.current@[index as int].first as int].games@)
                || has_pending(self.contestants@[self.current@[index as int].second as int].games@)),
    {
        let p = self.current[index];
        self.contestants[p.first].has_game_in_progress() || self.contestants[p.second].has_game_in_progress()
    }

    /// Reports the result of the pairing at `index` of the current round:
    /// the winner's game becomes a win and the loser's a loss. Once every
    /// game of the round is decided, the next round can be generated.
    pub fn report_result(&mut self, index: usize, first_wins: bool)
        requires
            old(self).wf(),
            index < old(self).current@.len(),
            old(self).current@[index as int].first != old(self).current@[index as int].second,
            awaits_result(old(self).contestants@[old(self).current@[index as int].first as int].games@, old(self).current@[index as int].second),
            awaits_result(old(self).contestants@[old(self).current@[index as int].second as int].games@, old(self).current@[index as int].first),
        ensures
            final(self).wf(),
            ({
                let p = old(self).current@[index as int];
                let a = old(self).contestants@[p.first as int].games@;
                let b = old(self).contestants@[p.second as int].games@;
                let (ra, rb) = if first_wins { (GameResult::Win, GameResult::Loss) } else { (GameResult::Loss, GameResult::Win) };
                &&& final(self).contestants@[p.first as int].games@ == a.update(a.len() - 1, decided(a.last(), ra))
                &&& final(self).contestants@[p.second as int].games@ == b.update(b.len() - 1, decided(b.last(), rb))
                &&& forall|i: int| 0 <= i < old(self).contestants@.len() && i != p.first && i != p.second
                    ==> #[trigger] final(self).contestants@[i] == old(self).contestants@[i]
            }),
            final(self).contestants@.len() == old(self).contestants@.len(),
            final(self).active@ == old(self).active@,
            final(self).eliminated@ == old(self).eliminated@,
            final(self).current@ == old(self).current@,
            final(self).round == old(self).round,
            final(self).allowed_losses == old(self).allowed_losses,
            final(self).first_move_advantage == old(self).first_move_advantage,
            final(self).max_repeats == old(self).max_repeats,
    {
        let p = self.current[index];
        let (ra, rb) = if first_wins { (GameResult::Win, GameResult::Loss) } else { (GameResult::Loss, GameResult::Win) };
        let ghost a0 = self.contestants@;
        decide_last(&mut self.contestants, p.first, ra);
        decide_last(&mut self.contestants, p.second, rb);
        proof {
            let a1 = self.contestants@;
            assert forall|i: int| 0 <= i < a1.len() implies {
                &&& (#[trigger] a1[i]).games@.len() <= MAX_GAMES
                &&& opponents_valid(a1[i].games@, a1.len() as int)
            } by {
                assert(a0[i].games@.len() <= MAX_GAMES);
                assert(opponents_valid(a0[i].games@, a0.len() as int));
                assert forall|k: int| 0 <= k < a1[i].games@.len() && (#[trigger] a1[i].games@[k]).opponent.is_some()
                    implies a1[i].games@[k].opponent.unwrap() < a1.len() by {
                    assert(a1[i].games@[k].opponent == a0[i].games@[k].opponent);
                }
            }
            assert forall|i: int| 0 <= i < a1.len() implies (#[trigger] a1[i]).games@.len() <= self.round by {
                assert(a0[i].games@.len() <= self.round);
            }
        }
    }
}

/// Elimination is monotonic: a contestant eliminated before a round stays
/// eliminated, is not active afterwards, and plays in none of the round's
/// pairings nor gets its bye.
pub proof fn lemma_elimination_monotonic(old: SwissElimination, new: SwissElimination, rp: RoundPairings, x: usize)
    requires
        old.wf(),
        new.wf(),
        round_generated(old, new, rp),
        old.eliminated@.contains(x),
    ensures
        new.eliminated@.contains(x),
        !new.active@.contains(x),
        !in_pairs(pair_ids(rp.pairs@), x),
        rp.bye != Some(x),
{
}

/// A pairing of a generated round goes over the repeat limit only where its
/// first contestant would have gone over the limit with every other
/// contestant still unpaired at its step, that is everyone in that pairing
/// and in the later ones.
pub proof fn lemma_round_repeat_limit(old: SwissElimination, new: SwissElimination, rp: RoundPairings)
    requires
        round_generated(old, new, rp),
    ensures
        repeats_forced(old.contestants@, pair_ids(rp.pairs@), old.max_repeats),
{
    if choices_minimal(
        old.contestants@,
        arena_keys(old.contestants@),
        old.first_move_advantage,
        old.max_repeats,
        pair_ids(rp.pairs@),
    ) {
        lemma_repeats_forced(
            old.contestants@,
            arena_keys(old.contestants@),
            old.first_move_advantage,
            old.max_repeats,
            pair_ids(rp.pairs@),
        );
    } else {
        let ids = pair_ids(rp.pairs@);
        assert forall|k: int, k2: int, x: usize|
            0 <= k <= k2 < ids.len() && over_limit(old.contestants@, (#[trigger] ids[k]).0, ids[k].1, old.max_repeats)
                && #[trigger] plays_in(ids[k2], x) && x != ids[k].0 implies over_limit(old.contestants@, ids[k].0, x, old.max_repeats) by {
            assert(!pair_over(old.contestants@, ids[k].0, ids[k].1, old.max_repeats));
        }
    }
}

} // verus!
