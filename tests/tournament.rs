use swiss_elimination::contestant::{Contestant, RankKey};
use swiss_elimination::pairing::find_matching;
use swiss_elimination::ranking::{rank_keys, sort_by_rank};
use swiss_elimination::criteria::{StrongPairingCriteria, WeakPairingCriteria};
use swiss_elimination::game::{FirstMoverAdvantage, Game, GameResult};
use swiss_elimination::seed::Seed;
use swiss_elimination::tournament::{RoundError, SwissElimination};

fn elo(rating: u64, rand: u64) -> Seed {
    Seed::Elo { elo: Some(rating), rand }
}

fn played(result: GameResult, opponent: usize) -> Game {
    Game { game_result: result, advantage: None, opponent: Some(opponent) }
}

fn contestant(name: &str, rating: u64, games: Vec<Game>) -> Contestant {
    Contestant { seed: elo(rating, 0), name: name.to_string(), games }
}

/// A tournament with one contestant per rating, best first.
fn tournament(ratings: &[u64], allowed_losses: u64, first_move: bool, max_repeats: u64) -> SwissElimination {
    let mut t = SwissElimination::new(allowed_losses, first_move, max_repeats);
    for (i, r) in ratings.iter().enumerate() {
        t.add_contestant(elo(*r, i as u64), format!("player{}", i));
    }
    t
}

fn members(t: &SwissElimination) -> Vec<usize> {
    let mut v = Vec::new();
    for p in t.current.iter() {
        v.push(p.first);
        v.push(p.second);
    }
    v
}

fn report_all(t: &mut SwissElimination, first_wins: bool) {
    for i in 0..t.current.len() {
        t.report_result(i, first_wins);
    }
}

#[test]
fn metrics_of_empty_history_are_zero() {
    let arena = vec![contestant("a", 1500, vec![])];
    assert_eq!(arena[0].win_count(), 0);
    assert_eq!(arena[0].opponent_win_count(&arena), 0);
    assert_eq!(arena[0].sonneborn_berger(&arena), 0);
}

#[test]
fn sonneborn_berger_counts_beaten_opponents_wins() {
    // A beats B, C beats D; then A beats C.
    let arena = vec![
        contestant("A", 1500, vec![played(GameResult::Win, 1), played(GameResult::Win, 2)]),
        contestant("B", 1500, vec![played(GameResult::Loss, 0)]),
        contestant("C", 1500, vec![played(GameResult::Win, 3), played(GameResult::Loss, 0)]),
        contestant("D", 1500, vec![played(GameResult::Loss, 2)]),
    ];
    assert_eq!(arena[0].win_count(), 2);
    assert_eq!(arena[0].sonneborn_berger(&arena), 0 + 1);
    assert_eq!(arena[0].opponent_win_count(&arena), 1);
    // C: lost to A (2 wins), beat D (0 wins).
    assert_eq!(arena[2].opponent_win_count(&arena), 2);
    assert_eq!(arena[2].sonneborn_berger(&arena), 0);
}

#[test]
fn bye_counts_own_win_count() {
    let arena = vec![
        contestant("A", 1500, vec![Game::bye(), played(GameResult::Win, 1), played(GameResult::Loss, 1)]),
        contestant("B", 1500, vec![Game::bye(), played(GameResult::Loss, 0), played(GameResult::Win, 0)]),
    ];
    // A has 2 wins: bye (2) + B (2) + B (2).
    assert_eq!(arena[0].opponent_win_count(&arena), 6);
    // Won games only: bye (2) + B (2).
    assert_eq!(arena[0].sonneborn_berger(&arena), 4);
}

#[test]
fn in_progress_games_do_not_count_as_wins() {
    let arena = vec![
        contestant("A", 1500, vec![played(GameResult::InProgress, 1)]),
        contestant("B", 1500, vec![played(GameResult::InProgress, 0)]),
    ];
    assert_eq!(arena[0].win_count(), 0);
    assert!(arena[0].has_game_in_progress());
    assert_eq!(arena[0].loss_count(), 1);
}

#[test]
fn seed_order() {
    assert!(elo(1600, 0).ranks_above(&elo(1500, 9)));
    assert!(elo(1500, 0).ranks_above(&Seed::Elo { elo: None, rand: 9 }));
    assert!(elo(1500, 2).ranks_above(&elo(1500, 1)));
    assert!(!elo(1500, 1).ranks_above(&elo(1500, 1)));
    let first = Seed::Rank { rank: Some(1), rand: 0 };
    let second = Seed::Rank { rank: Some(2), rand: 5 };
    let unplaced = Seed::Rank { rank: None, rand: 7 };
    assert!(first.ranks_above(&second));
    assert!(second.ranks_above(&unplaced));
    assert!(!unplaced.ranks_above(&second));
}

#[test]
fn ranking_key_is_strict_for_distinct_seeds() {
    let key = |w: u64, o: u64, s: u64, seed: Seed| RankKey { wins: w, opponent_wins: o, sonneborn_berger: s, seed };
    let a = key(2, 3, 1, elo(1500, 1));
    let b = key(2, 3, 1, elo(1500, 2));
    assert!(b.ranks_above(&a) && !a.ranks_above(&b));
    assert!(!a.ranks_above(&a));
    let c = key(3, 0, 0, elo(1000, 0));
    assert!(c.ranks_above(&b));
    let d = key(2, 4, 0, elo(1000, 0));
    assert!(d.ranks_above(&b));
    let e = key(2, 3, 2, elo(1000, 0));
    assert!(e.ranks_above(&b) && !b.ranks_above(&e));
}

#[test]
fn strong_criteria_add_and_compare() {
    let x = StrongPairingCriteria { bye_repeats: 1, max_pairing_repeats: 2, pairing_repeats: 3, absolute_preference_violations: 4 };
    let y = StrongPairingCriteria { bye_repeats: 5, max_pairing_repeats: 1, pairing_repeats: 6, absolute_preference_violations: 7 };
    let z = x.add(y);
    assert_eq!(z, StrongPairingCriteria { bye_repeats: 6, max_pairing_repeats: 2, pairing_repeats: 9, absolute_preference_violations: 11 });
    assert!(x.better_than(&y));
    assert!(!y.better_than(&x));
    assert!(!x.better_than(&x));
    assert!(StrongPairingCriteria::zero().better_than(&x));
}

#[test]
fn weak_criteria_compare_in_priority_order() {
    let base = WeakPairingCriteria {
        outgoing_floaters: 1,
        unpaired_floaters: 1,
        sum_score_paired_floaters: 5,
        next_unpaired_floaters: 1,
        next_sum_score_paired_floaters: 5,
        strong_preference_violations: 1,
        weak_preference_violations: 1,
    };
    let higher_sum = WeakPairingCriteria { sum_score_paired_floaters: 6, ..base };
    assert!(higher_sum.better_than(&base));
    let fewer_out = WeakPairingCriteria { outgoing_floaters: 0, sum_score_paired_floaters: 0, ..base };
    assert!(fewer_out.better_than(&higher_sum));
    let fewer_weak = WeakPairingCriteria { weak_preference_violations: 0, ..base };
    assert!(fewer_weak.better_than(&base));
    assert!(!base.better_than(&base));
}

#[test]
fn five_contestants_two_pairings_and_a_bye() {
    let mut t = tournament(&[2000, 1900, 1800, 1700, 1600], 3, false, 0);
    let rp = t.generate_pairings().ok().unwrap();
    assert_eq!(rp.round, 1);
    assert_eq!(rp.pairs.len(), 2);
    assert_eq!(rp.bye, Some(4));
    let c = &t.contestants[4];
    assert_eq!(c.games.len(), 1);
    assert_eq!(c.games[0].game_result, GameResult::Win);
    assert!(c.games[0].opponent.is_none());
}

#[test]
fn round_one_uses_fold_pairing() {
    let mut t = tournament(&[2000, 1900, 1800, 1700], 3, false, 0);
    let rp = t.generate_pairings().ok().unwrap();
    let pairs: Vec<(usize, usize)> = rp.pairs.iter().map(|p| (p.first, p.second)).collect();
    assert_eq!(pairs, vec![(0, 2), (1, 3)]);
    assert_eq!(rp.bye, None);
    assert_eq!(t.contestants[0].games[0].opponent, Some(2));
    assert_eq!(t.contestants[2].games[0].opponent, Some(0));
    assert_eq!(t.contestants[0].games[0].game_result, GameResult::InProgress);
}

#[test]
fn generate_while_round_in_progress_changes_nothing() {
    let mut t = tournament(&[2000, 1900, 1800], 3, false, 0);
    assert!(t.generate_pairings().is_ok());
    let round = t.round;
    let active = t.active.clone();
    let eliminated = t.eliminated.clone();
    let current = t.current.clone();
    let games: Vec<usize> = t.contestants.iter().map(|c| c.games.len()).collect();
    let r = t.generate_pairings();
    assert!(matches!(r, Err(RoundError::RoundInProgress)));
    assert_eq!(t.round, round);
    assert_eq!(t.active, active);
    assert_eq!(t.eliminated, eliminated);
    assert_eq!(t.current, current);
    let after: Vec<usize> = t.contestants.iter().map(|c| c.games.len()).collect();
    assert_eq!(after, games);
    report_all(&mut t, true);
    assert!(t.generate_pairings().is_ok());
}

#[test]
fn pairings_partition_the_active_contestants() {
    let mut t = tournament(&[2000, 1950, 1900, 1850, 1800, 1750, 1700], 5, false, 0);
    for _ in 0..3 {
        let rp = t.generate_pairings().ok().unwrap();
        let mut seen = members(&t);
        if let Some(y) = rp.bye {
            seen.push(y);
        }
        let mut sorted = seen.clone();
        sorted.sort();
        sorted.dedup();
        assert_eq!(sorted.len(), seen.len());
        let mut active = t.active.clone();
        active.sort();
        assert_eq!(sorted, active);
        report_all(&mut t, true);
    }
}

#[test]
fn no_rematch_when_one_can_be_avoided() {
    let mut t = tournament(&[2000, 1900, 1800, 1700, 1600, 1500], 9, false, 0);
    let mut met: Vec<(usize, usize)> = Vec::new();
    for _ in 0..3 {
        t.generate_pairings().ok().unwrap();
        for p in t.current.iter() {
            let key = (p.first.min(p.second), p.first.max(p.second));
            assert!(!met.contains(&key));
            met.push(key);
        }
        report_all(&mut t, true);
    }
}

#[test]
fn rematch_only_when_forced() {
    let mut t = tournament(&[2000, 1900], 9, false, 0);
    t.generate_pairings().ok().unwrap();
    report_all(&mut t, true);
    let rp = t.generate_pairings().ok().unwrap();
    assert_eq!(rp.pairs.len(), 1);
    assert_eq!(t.contestants[0].meetings_with(1), 2);
}

#[test]
fn no_second_bye_while_another_is_eligible() {
    let mut t = tournament(&[2000, 1900, 1800], 9, false, 0);
    let mut byes: Vec<usize> = Vec::new();
    for _ in 0..3 {
        let rp = t.generate_pairings().ok().unwrap();
        let y = rp.bye.unwrap();
        assert!(!byes.contains(&y));
        byes.push(y);
        report_all(&mut t, true);
    }
    // Everyone has had a bye: the fourth one repeats.
    let rp = t.generate_pairings().ok().unwrap();
    assert!(rp.bye.is_some());
}

#[test]
fn elimination_at_the_round_after_the_last_allowed_loss() {
    let mut t = tournament(&[2000, 1900], 2, false, 9);
    t.generate_pairings().ok().unwrap();
    report_all(&mut t, true);
    // Contestant 1 has one loss: still active.
    t.generate_pairings().ok().unwrap();
    assert_eq!(t.eliminated, Vec::<usize>::new());
    report_all(&mut t, true);
    // Two losses now, but it stays until the next round is generated.
    assert_eq!(t.contestants[1].loss_count(), 2);
    assert!(t.active.contains(&1));
    let rp = t.generate_pairings().ok().unwrap();
    assert_eq!(t.eliminated, vec![1]);
    assert_eq!(t.active, vec![0]);
    assert_eq!(rp.bye, Some(0));
    assert!(rp.pairs.is_empty());
    // Once eliminated, always eliminated.
    t.generate_pairings().ok().unwrap();
    assert_eq!(t.eliminated, vec![1]);
    assert_eq!(t.contestants[1].games.len(), 2);
}

#[test]
fn first_move_goes_to_the_side_owed_it() {
    let mut t = tournament(&[2000, 1900], 9, true, 9);
    let rp = t.generate_pairings().ok().unwrap();
    assert_eq!(rp.pairs[0].advantage, Some(FirstMoverAdvantage::First));
    assert_eq!(t.contestants[0].games[0].advantage, Some(FirstMoverAdvantage::First));
    assert_eq!(t.contestants[1].games[0].advantage, Some(FirstMoverAdvantage::Last));
    report_all(&mut t, true);
    let rp = t.generate_pairings().ok().unwrap();
    // Contestant 0 moved first last time, so now contestant 1 does.
    assert_eq!(rp.pairs[0].first, 0);
    assert_eq!(rp.pairs[0].advantage, Some(FirstMoverAdvantage::Last));
    assert_eq!(t.contestants[1].first_move_balance(), 0);
    assert_eq!(t.contestants[0].first_move_balance(), 0);
}

#[test]
fn untracked_first_move_leaves_no_marker() {
    let mut t = tournament(&[2000, 1900], 9, false, 9);
    let rp = t.generate_pairings().ok().unwrap();
    assert_eq!(rp.pairs[0].advantage, None);
    assert_eq!(t.contestants[1].games[0].advantage, None);
}

#[test]
fn report_result_sets_both_sides() {
    let mut t = tournament(&[2000, 1900], 9, false, 9);
    t.generate_pairings().ok().unwrap();
    assert!(t.pairing_in_progress(0));
    t.report_result(0, false);
    assert!(!t.pairing_in_progress(0));
    assert_eq!(t.contestants[0].games[0].game_result, GameResult::Loss);
    assert_eq!(t.contestants[1].games[0].game_result, GameResult::Win);
    assert_eq!(t.contestants[1].win_count(), 1);
}

#[test]
fn winners_rank_above_losers_next_round() {
    let mut t = tournament(&[2000, 1900, 1800, 1700], 9, false, 0);
    t.generate_pairings().ok().unwrap();
    // 2 and 3 win.
    report_all(&mut t, false);
    let rp = t.generate_pairings().ok().unwrap();
    let pairs: Vec<(usize, usize)> = rp.pairs.iter().map(|p| (p.first, p.second)).collect();
    assert_eq!(pairs, vec![(2, 3), (0, 1)]);
}

#[test]
fn sort_orders_by_wins_then_tie_breaks() {
    // B and C have one win each; C's beaten opponent has a win, B's has none.
    let arena = vec![
        contestant("A", 2000, vec![played(GameResult::Loss, 2), played(GameResult::Win, 3)]),
        contestant("B", 1900, vec![played(GameResult::Win, 3), played(GameResult::Loss, 2)]),
        contestant("C", 1000, vec![played(GameResult::Win, 0), played(GameResult::Win, 1)]),
        contestant("D", 1500, vec![played(GameResult::Loss, 1), played(GameResult::Loss, 0)]),
    ];
    let keys = rank_keys(&arena);
    assert_eq!(keys[2].wins, 2);
    assert_eq!(keys[0].opponent_wins, 2);
    assert_eq!(keys[1].opponent_wins, 2);
    assert_eq!(keys[0].sonneborn_berger, 0);
    let order = sort_by_rank(vec![3, 1, 0, 2], &keys);
    assert_eq!(order, vec![2, 0, 1, 3]);
}

#[test]
fn backtracks_to_avoid_a_forced_rematch() {
    // A=0, B=1, C=2, D=3, E=4, F=5.
    // Round 1: A beats E, B beats F, D beats C.
    // Round 2: A beats F, B beats E, C beats D.
    let arena = vec![
        contestant("A", 2000, vec![played(GameResult::Win, 4), played(GameResult::Win, 5)]),
        contestant("B", 1900, vec![played(GameResult::Win, 5), played(GameResult::Win, 4)]),
        contestant("C", 1800, vec![played(GameResult::Loss, 3), played(GameResult::Win, 3)]),
        contestant("D", 1700, vec![played(GameResult::Win, 2), played(GameResult::Loss, 2)]),
        contestant("E", 1600, vec![played(GameResult::Loss, 0), played(GameResult::Loss, 1)]),
        contestant("F", 1500, vec![played(GameResult::Loss, 1), played(GameResult::Loss, 0)]),
    ];
    // C and D have already repeated their meeting once: no second repeat.
    let mut t = SwissElimination::new(2, false, 1);
    t.contestants = arena;
    t.active = vec![0, 1, 2, 3, 4, 5];
    t.round = 2;
    let rp = t.generate_pairings().ok().unwrap();
    assert_eq!(t.eliminated, vec![4, 5]);
    let pairs: Vec<(usize, usize)> = rp.pairs.iter().map(|p| (p.first, p.second)).collect();
    assert_eq!(pairs, vec![(1, 3), (0, 2)]);
    assert_eq!(rp.bye, None);
}

#[test]
fn search_reports_when_no_pairing_keeps_the_limit() {
    let arena = vec![
        contestant("A", 2000, vec![played(GameResult::Win, 1)]),
        contestant("B", 1900, vec![played(GameResult::Loss, 0)]),
    ];
    assert!(find_matching(vec![0, 1], &arena, 0).is_none());
    assert_eq!(find_matching(vec![0, 1], &arena, 1), Some(vec![(0, 1)]));
    assert_eq!(find_matching(vec![], &arena, 0), Some(vec![]));
}
