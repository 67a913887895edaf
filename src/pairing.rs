use vstd::prelude::*;
use crate::contestant::{
    Contestant, RankKey, arena_ok, first_move_balance, key_above, lemma_meetings_le_len, meetings,
};
use crate::criteria::{StrongPairingCriteria, WeakPairingCriteria, strong_better, weak_better};
use crate::ranking::{ids_in, keys_of, lemma_remove_distinct, lemma_remove_sorted, sorted_by_rank};

verus! {

/// Pairing `a` with `b` would repeat their meeting more often than allowed.
pub open spec fn over_limit(arena: Seq<Contestant>, a: usize, b: usize, max_repeats: u64) -> bool {
    meetings(arena[a as int].games@, b) > max_repeats
}

/// Hard criteria of pairing `a` with `b`: how often they have met already.
pub open spec fn strong_for(arena: Seq<Contestant>, a: usize, b: usize) -> StrongPairingCriteria {
    let m = meetings(arena[a as int].games@, b);
    StrongPairingCriteria {
        bye_repeats: 0,
        max_pairing_repeats: m as u64,
        pairing_repeats: if m > 0 { 1 } else { 0 },
        absolute_preference_violations: 0,
    }
}

/// Both contestants lean towards the same side of the first move.
pub open spec fn same_preference(x: int, y: int) -> bool {
    (x < 0 && y < 0) || (x > 0 && y > 0)
}

/// Soft criteria of pairing `a` with `b`: a pairing across score brackets
/// floats `a` down, where a stronger opponent is better; when the first move
/// is counted, two contestants owed the same side violate a preference.
pub open spec fn weak_for(
    arena: Seq<Contestant>,
    keys: Seq<RankKey>,
    first_move: bool,
    a: usize,
    b: usize,
) -> WeakPairingCriteria {
    let float = keys[a as int].wins != keys[b as int].wins;
    WeakPairingCriteria {
        outgoing_floaters: if float { 1 } else { 0 },
        unpaired_floaters: 0,
        sum_score_paired_floaters: if float { keys[b as int].wins } else { 0 },
        next_unpaired_floaters: 0,
        next_sum_score_paired_floaters: 0,
        strong_preference_violations: if first_move && same_preference(
            first_move_balance(arena[a as int].games@),
            first_move_balance(arena[b as int].games@),
        ) {
            1
        } else {
            0
        },
        weak_preference_violations: 0,
    }
}

/// The whole cost of a candidate: within the repeat limit first, then the
/// hard criteria, then the soft ones.
pub struct Cost {
    pub over: bool,
    pub strong: StrongPairingCriteria,
    pub weak: WeakPairingCriteria,
}

pub open spec fn cost_for(
    arena: Seq<Contestant>,
    keys: Seq<RankKey>,
    first_move: bool,
    max_repeats: u64,
    a: usize,
    b: usize,
) -> Cost {
    Cost {
        over: over_limit(arena, a, b, max_repeats),
        strong: strong_for(arena, a, b),
        weak: weak_for(arena, keys, first_move, a, b),
    }
}

/// `x` is strictly better than `y`.
pub open spec fn cost_better(x: Cost, y: Cost) -> bool {
    ||| !x.over && y.over
    ||| x.over == y.over && strong_better(x.strong, y.strong)
    ||| x.over == y.over && x.strong == y.strong && weak_better(x.weak, y.weak)
}

proof fn lemma_cost_order(x: Cost, y: Cost, z: Cost)
    ensures
        !cost_better(x, x),
        cost_better(x, y) && cost_better(y, z) ==> cost_better(x, z),
{
}

/// Arguments every pairing step needs to hold.
pub open spec fn pairing_ready(arena: Seq<Contestant>, keys: Seq<RankKey>, pool: Seq<usize>) -> bool {
    &&& arena_ok(arena)
    &&& keys_of(arena, keys)
    &&& ids_in(pool, arena.len() as int)
}

fn candidate_cost(
    arena: &Vec<Contestant>,
    keys: &Vec<RankKey>,
    first_move: bool,
    max_repeats: u64,
    a: usize,
    b: usize,
) -> (c: Cost)
    requires
        arena_ok(arena@),
        keys_of(arena@, keys@),
        a < arena@.len(),
        b < arena@.len(),
    ensures
        c == cost_for(arena@, keys@, first_move, max_repeats, a, b),
{
    proof {
        lemma_meetings_le_len(arena@[a as int].games@, b);
    }
    let m = arena[a].meetings_with(b) as u64;
    let float = keys[a].wins != keys[b].wins;
    let pref = if first_move {
        let x = arena[a].first_move_balance();
        let y = arena[b].first_move_balance();
        (x < 0 && y < 0) || (x > 0 && y > 0)
    } else {
        false
    };
    Cost {
        over: m > max_repeats,
        strong: StrongPairingCriteria {
            bye_repeats: 0,
            max_pairing_repeats: m,
            pairing_repeats: if m > 0 { 1 } else { 0 },
            absolute_preference_violations: 0,
        },
        weak: WeakPairingCriteria {
            outgoing_floaters: if float { 1 } else { 0 },
            unpaired_floaters: 0,
            sum_score_paired_floaters: if float { keys[b].wins } else { 0 },
            next_unpaired_floaters: 0,
            next_sum_score_paired_floaters: 0,
            strong_preference_violations: if pref { 1 } else { 0 },
            weak_preference_violations: 0,
        },
    }
}

fn better(x: &Cost, y: &Cost) -> (r: bool)
    ensures
        r == cost_better(*x, *y),
{
    if x.over != y.over {
        !x.over
    } else if x.strong.better_than(&y.strong) {
        true
    } else if y.strong.better_than(&x.strong) {
        false
    } else {
        proof {
            assert(x.strong == y.strong);
        }
        x.weak.better_than(&y.weak)
    }
}

/// Position of the partner for `pool[0]`, the highest ranked contestant left.
///
/// The fold partner comes first: with `m` contestants left in the top score
/// bracket, the one `m / 2` places down (the top of the next bracket when the
/// top contestant is alone). A candidate replaces it only when strictly
/// better, so the result has the least cost among all candidates.
pub fn choose_partner(
    pool: &Vec<usize>,
    arena: &Vec<Contestant>,
    keys: &Vec<RankKey>,
    first_move: bool,
    max_repeats: u64,
) -> (j: usize)
    requires
        pool@.len() >= 2,
        pairing_ready(arena@, keys@, pool@),
    ensures
        1 <= j < pool@.len(),
        forall|k: int|
            1 <= k < pool@.len() ==> !cost_better(
                #[trigger] cost_for(arena@, keys@, first_move, max_repeats, pool@[0], pool@[k]),
                cost_for(arena@, keys@, first_move, max_repeats, pool@[0], pool@[j as int]),
            ),
{
    let ghost a = pool@[0];
    let top = keys[pool[0]].wins;
    let mut m: usize = 1;
    while m < pool.len() && keys[pool[m]].wins == top
        invariant
            1 <= m <= pool@.len(),
            pairing_ready(arena@, keys@, pool@),
        decreases pool@.len() - m,
    {
        m = m + 1;
    }
    let fold: usize = if m >= 2 { m / 2 } else { 1 };
    let mut best = fold;
    let mut best_cost = candidate_cost(arena, keys, first_move, max_repeats, pool[0], pool[fold]);
    let mut j = fold + 1;
    while j < pool.len()
        invariant
            1 <= fold <= best < j <= pool@.len(),
            pool@[0] == a,
            pairing_ready(arena@, keys@, pool@),
            best_cost == cost_for(arena@, keys@, first_move, max_repeats, a, pool@[best as int]),
            forall|k: int|
                fold <= k < j ==> !cost_better(
                    #[trigger] cost_for(arena@, keys@, first_move, max_repeats, a, pool@[k]),
                    best_cost,
                ),
        decreases pool@.len() - j,
    {
        let c = candidate_cost(arena, keys, first_move, max_repeats, pool[0], pool[j]);
        if better(&c, &best_cost) {
            proof {
                assert forall|k: int| fold <= k < j implies !cost_better(
                    #[trigger] cost_for(arena@, keys@, first_move, max_repeats, a, pool@[k]),
                    c,
                ) by {
                    lemma_cost_order(cost_for(arena@, keys@, first_move, max_repeats, a, pool@[k]), c, best_cost);
                }
            }
            best = j;
            best_cost = c;
        }
        j = j + 1;
    }
    let mut i = fold;
    while i > 1
        invariant
            1 <= i <= fold < pool@.len(),
            1 <= best < pool@.len(),
            pool@[0] == a,
            pairing_ready(arena@, keys@, pool@),
            best_cost == cost_for(arena@, keys@, first_move, max_repeats, a, pool@[best as int]),
            forall|k: int|
                i <= k < pool@.len() ==> !cost_better(
                    #[trigger] cost_for(arena@, keys@, first_move, max_repeats, a, pool@[k]),
                    best_cost,
                ),
        decreases i,
    {
        let c = candidate_cost(arena, keys, first_move, max_repeats, pool[0], pool[i - 1]);
        if better(&c, &best_cost) {
            proof {
                assert forall|k: int| i <= k < pool@.len() implies !cost_better(
                    #[trigger] cost_for(arena@, keys@, first_move, max_repeats, a, pool@[k]),
                    c,
                ) by {
                    lemma_cost_order(cost_for(arena@, keys@, first_move, max_repeats, a, pool@[k]), c, best_cost);
                }
            }
            best = i - 1;
            best_cost = c;
        }
        i = i - 1;
    }
    best
}

/// `x` plays in pairing `p`.
pub open spec fn plays_in(p: (usize, usize), x: usize) -> bool {
    p.0 == x || p.1 == x
}

/// `x` plays in one of `pairs`.
pub open spec fn in_pairs(pairs: Seq<(usize, usize)>, x: usize) -> bool {
    exists|k: int| 0 <= k < pairs.len() && #[trigger] plays_in(pairs[k], x)
}

/// No contestant plays twice in `pairs`, nor against itself.
pub open spec fn pairs_disjoint(pairs: Seq<(usize, usize)>) -> bool {
    &&& forall|k: int| 0 <= k < pairs.len() ==> (#[trigger] pairs[k]).0 != pairs[k].1
    &&& forall|k1: int, k2: int, x: usize|
        0 <= k1 < k2 < pairs.len() && #[trigger] plays_in(pairs[k1], x) ==> !#[trigger] plays_in(pairs[k2], x)
}

/// A pairing goes over the repeat limit only where its first contestant was
/// over the limit with every contestant still unpaired when it was made, that
/// is with everyone in that pairing and in the later ones.
pub open spec fn repeats_forced(arena: Seq<Contestant>, pairs: Seq<(usize, usize)>, max_repeats: u64) -> bool {
    forall|k: int, k2: int, x: usize|
        0 <= k <= k2 < pairs.len() && over_limit(arena, (#[trigger] pairs[k]).0, pairs[k].1, max_repeats)
            && #[trigger] plays_in(pairs[k2], x) && x != pairs[k].0 ==> over_limit(
            arena,
            pairs[k].0,
            x,
            max_repeats,
        )
}

pub proof fn lemma_in_pairs_push(pairs: Seq<(usize, usize)>, p: (usize, usize), x: usize)
    ensures
        in_pairs(pairs.push(p), x) <==> (in_pairs(pairs, x) || plays_in(p, x)),
{
    let q = pairs.push(p);
    if in_pairs(q, x) {
        let k = choose|k: int| 0 <= k < q.len() && #[trigger] plays_in(q[k], x);
        if k < pairs.len() {
            assert(plays_in(pairs[k], x));
        }
    }
    if in_pairs(pairs, x) {
        let k = choose|k: int| 0 <= k < pairs.len() && #[trigger] plays_in(pairs[k], x);
        assert(plays_in(q[k], x));
    }
    if plays_in(p, x) {
        assert(plays_in(q[pairs.len() as int], x));
    }
}

/// How each pairing of `pairs` was chosen from the contestants still unpaired
/// at its step, who are those of that pairing and the later ones: its first
/// contestant ranks at least as high as all of them, and no other of them
/// would have been a strictly cheaper partner for it.
pub open spec fn choices_minimal(
    arena: Seq<Contestant>,
    keys: Seq<RankKey>,
    first_move: bool,
    max_repeats: u64,
    pairs: Seq<(usize, usize)>,
) -> bool {
    forall|k: int, k2: int, x: usize|
        0 <= k <= k2 < pairs.len() && #[trigger] plays_in(pairs[k2], x) && x != (#[trigger] pairs[k]).0 ==> {
            &&& !key_above(keys[x as int], keys[pairs[k].0 as int])
            &&& x != pairs[k].1 ==> !cost_better(
                cost_for(arena, keys, first_move, max_repeats, pairs[k].0, x),
                cost_for(arena, keys, first_move, max_repeats, pairs[k].0, pairs[k].1),
            )
        }
}

/// Where every choice was the cheapest, a pairing goes over the repeat limit
/// only where every other contestant still unpaired would have gone over too.
pub proof fn lemma_repeats_forced(
    arena: Seq<Contestant>,
    keys: Seq<RankKey>,
    first_move: bool,
    max_repeats: u64,
    pairs: Seq<(usize, usize)>,
)
    requires
        choices_minimal(arena, keys, first_move, max_repeats, pairs),
    ensures
        repeats_forced(arena, pairs, max_repeats),
{
    assert forall|k: int, k2: int, x: usize|
        0 <= k <= k2 < pairs.len() && over_limit(arena, (#[trigger] pairs[k]).0, pairs[k].1, max_repeats)
            && #[trigger] plays_in(pairs[k2], x) && x != pairs[k].0 implies over_limit(arena, pairs[k].0, x, max_repeats) by {
        if x != pairs[k].1 {
            assert(!cost_better(
                cost_for(arena, keys, first_move, max_repeats, pairs[k].0, x),
                cost_for(arena, keys, first_move, max_repeats, pairs[k].0, pairs[k].1),
            ));
        }
    }
}

/// Pairs off the whole of `pool`, which is ordered from the highest ranked to
/// the lowest: again and again the highest ranked contestant left is paired
/// with the partner that `choose_partner` picks.
pub fn pair_pool(
    pool: Vec<usize>,
    arena: &Vec<Contestant>,
    keys: &Vec<RankKey>,
    first_move: bool,
    max_repeats: u64,
) -> (pairs: Vec<(usize, usize)>)
    requires
        pool@.len() % 2 == 0,
        pool@.no_duplicates(),
        pairing_ready(arena@, keys@, pool@),
        sorted_by_rank(pool@, keys@),
    ensures
        2 * pairs@.len() == pool@.len(),
        pairs_disjoint(pairs@),
        forall|x: usize| #[trigger] in_pairs(pairs@, x) <==> pool@.contains(x),
        choices_minimal(arena@, keys@, first_move, max_repeats, pairs@),
{
    let mut rest = pool;
    let mut pairs: Vec<(usize, usize)> = Vec::new();
    while rest.len() >= 2
        invariant
            rest@.len() % 2 == 0,
            rest@.no_duplicates(),
            pairing_ready(arena@, keys@, rest@),
            rest@.len() + 2 * pairs@.len() == pool@.len(),
            pairs_disjoint(pairs@),
            forall|x: usize| #[trigger] in_pairs(pairs@, x) ==> !rest@.contains(x),
            forall|x: usize| pool@.contains(x) <==> (#[trigger] rest@.contains(x) || in_pairs(pairs@, x)),
            sorted_by_rank(rest@, keys@),
            choices_minimal(arena@, keys@, first_move, max_repeats, pairs@),
            forall|k: int, x: usize|
                0 <= k < pairs@.len() && #[trigger] rest@.contains(x) ==> {
                    &&& !key_above(keys@[x as int], keys@[(#[trigger] pairs@[k]).0 as int])
                    &&& !cost_better(
                        cost_for(arena@, keys@, first_move, max_repeats, pairs@[k].0, x),
                        cost_for(arena@, keys@, first_move, max_repeats, pairs@[k].0, pairs@[k].1),
                    )
                },
        decreases rest@.len(),
    {
        let j = choose_partner(&rest, arena, keys, first_move, max_repeats);
        let ghost r0 = rest@;
        let ghost p0 = pairs@;
        let a = rest[0];
        proof {
            lemma_remove_distinct(r0, j as int);
            assert(r0.remove(j as int)[0] == a);
            lemma_remove_distinct(r0.remove(j as int), 0);
            lemma_remove_sorted(r0, keys@, j as int);
            lemma_remove_sorted(r0.remove(j as int), keys@, 0);
            assert forall|x: usize| #[trigger] r0.contains(x) && x != a implies !key_above(keys@[x as int], keys@[a as int])
                && (x != r0[j as int] ==> !cost_better(
                    cost_for(arena@, keys@, first_move, max_repeats, a, x),
                    cost_for(arena@, keys@, first_move, max_repeats, a, r0[j as int]),
                )) by {
                let k = choose|k: int| 0 <= k < r0.len() && r0[k] == x;
                assert(k != 0);
                assert(!cost_better(cost_for(arena@, keys@, first_move, max_repeats, a, r0[k]), cost_for(arena@, keys@, first_move, max_repeats, a, r0[j as int])));
            }
        }
        let b = rest.remove(j);
        let a2 = rest.remove(0);
        assert(a2 == a);
        pairs.push((a, b));
        proof {
            assert(pairs@ == p0.push((a, b)));
            assert forall|x: usize| #[trigger] in_pairs(pairs@, x) <==> (in_pairs(p0, x) || x == a || x == b) by {
                lemma_in_pairs_push(p0, (a, b), x);
            }
            assert forall|x: usize| #[trigger] rest@.contains(x) <==> (r0.contains(x) && x != a && x != b) by {}
            assert(pairs_disjoint(pairs@)) by {
                assert forall|k1: int, k2: int, x: usize|
                    0 <= k1 < k2 < pairs@.len() && #[trigger] plays_in(pairs@[k1], x) implies !#[trigger] plays_in(pairs@[k2], x) by {
                    if k2 == p0.len() {
                        assert(in_pairs(p0, x)) by {
                            assert(plays_in(p0[k1], x));
                        }
                    } else {
                        assert(pairs@[k1] == p0[k1]);
                        assert(pairs@[k2] == p0[k2]);
                    }
                }
            }
            assert forall|x: usize| pool@.contains(x) <==> (#[trigger] rest@.contains(x) || in_pairs(pairs@, x)) by {
                assert(rest@.contains(x) <==> (r0.contains(x) && x != a && x != b));
                assert(in_pairs(pairs@, x) <==> (in_pairs(p0, x) || x == a || x == b));
            }
            assert forall|x: usize| #[trigger] in_pairs(pairs@, x) implies !rest@.contains(x) by {
                assert(in_pairs(pairs@, x) <==> (in_pairs(p0, x) || x == a || x == b));
                assert(rest@.contains(x) <==> (r0.contains(x) && x != a && x != b));
            }
            assert forall|k: int, x: usize|
                0 <= k < pairs@.len() && #[trigger] rest@.contains(x) implies {
                    &&& !key_above(keys@[x as int], keys@[(#[trigger] pairs@[k]).0 as int])
                    &&& !cost_better(
                        cost_for(arena@, keys@, first_move, max_repeats, pairs@[k].0, x),
                        cost_for(arena@, keys@, first_move, max_repeats, pairs@[k].0, pairs@[k].1),
                    )
                } by {
                assert(rest@.contains(x) <==> (r0.contains(x) && x != a && x != b));
                if k < p0.len() {
                    assert(pairs@[k] == p0[k]);
                }
            }
            assert forall|k: int, k2: int, x: usize|
                0 <= k <= k2 < pairs@.len() && #[trigger] plays_in(pairs@[k2], x) && x != (#[trigger] pairs@[k]).0 implies {
                    &&& !key_above(keys@[x as int], keys@[pairs@[k].0 as int])
                    &&& x != pairs@[k].1 ==> !cost_better(
                        cost_for(arena@, keys@, first_move, max_repeats, pairs@[k].0, x),
                        cost_for(arena@, keys@, first_move, max_repeats, pairs@[k].0, pairs@[k].1),
                    )
                } by {
                if k < p0.len() {
                    assert(pairs@[k] == p0[k]);
                    if k2 < p0.len() {
                        assert(pairs@[k2] == p0[k2]);
                    } else {
                        assert(r0.contains(x));
                    }
                } else {
                    assert(r0.contains(x));
                }
            }
        }
    }
    assert forall|x: usize| #[trigger] in_pairs(pairs@, x) <==> pool@.contains(x) by {
        assert(rest@.len() == 0);
        assert(!rest@.contains(x));
    }
    pairs
}

/// Either side of pairing `a` with `b` has met the other more often than
/// allowed.
pub open spec fn pair_over(arena: Seq<Contestant>, a: usize, b: usize, max_repeats: u64) -> bool {
    over_limit(arena, a, b, max_repeats) || over_limit(arena, b, a, max_repeats)
}

/// No pairing of `pairs` goes over the repeat limit.
pub open spec fn within_limit(arena: Seq<Contestant>, max_repeats: u64, pairs: Seq<(usize, usize)>) -> bool {
    forall|k: int| 0 <= k < pairs.len() ==> !pair_over(arena, (#[trigger] pairs[k]).0, pairs[k].1, max_repeats)
}

/// `pairs` pairs off exactly the contestants of `pool`.
pub open spec fn matches_pool(pool: Seq<usize>, pairs: Seq<(usize, usize)>) -> bool {
    &&& pairs_disjoint(pairs)
    &&& forall|x: usize| #[trigger] in_pairs(pairs, x) <==> pool.contains(x)
}

/// Some way of pairing off `pool` stays within the repeat limit.
pub open spec fn limit_feasible(arena: Seq<Contestant>, max_repeats: u64, pool: Seq<usize>) -> bool {
    exists|m: Seq<(usize, usize)>| matches_pool(pool, m) && within_limit(arena, max_repeats, m)
}

/// Taking out the pairing of the first contestant of `pool` leaves a
/// pairing-off of the rest.
proof fn lemma_matching_split(pool: Seq<usize>, m: Seq<(usize, usize)>, k: int, j: int)
    requires
        pool.no_duplicates(),
        matches_pool(pool, m),
        0 <= k < m.len(),
        0 < j < pool.len(),
        (m[k] == (pool[0], pool[j])) || (m[k] == (pool[j], pool[0])),
    ensures
        matches_pool(pool.remove(j).remove(0), m.remove(k)),
{
    let a = pool[0];
    let b = pool[j];
    let rest = pool.remove(j).remove(0);
    let r = m.remove(k);
    lemma_remove_distinct(pool, j);
    assert(pool.remove(j)[0] == a);
    lemma_remove_distinct(pool.remove(j), 0);
    assert forall|i: int| 0 <= i < r.len() implies #[trigger] r[i] == m[if i < k { i } else { i + 1 }] by {}
    assert forall|k1: int, k2: int, x: usize|
        0 <= k1 < k2 < r.len() && #[trigger] plays_in(r[k1], x) implies !#[trigger] plays_in(r[k2], x) by {
        let i1 = if k1 < k { k1 } else { k1 + 1 };
        let i2 = if k2 < k { k2 } else { k2 + 1 };
        assert(r[k1] == m[i1] && r[k2] == m[i2]);
        assert(plays_in(m[i1], x));
    }
    assert forall|i: int| 0 <= i < r.len() implies (#[trigger] r[i]).0 != r[i].1 by {
        let ii = if i < k { i } else { i + 1 };
        assert(r[i] == m[ii]);
    }
    assert forall|x: usize| #[trigger] in_pairs(r, x) <==> rest.contains(x) by {
        if in_pairs(r, x) {
            let i = choose|i: int| 0 <= i < r.len() && #[trigger] plays_in(r[i], x);
            let ii = if i < k { i } else { i + 1 };
            assert(r[i] == m[ii]);
            assert(in_pairs(m, x));
            assert(pool.contains(x));
            if x == a || x == b {
                if ii < k {
                    assert(!plays_in(m[k], x));
                } else {
                    assert(!plays_in(m[k], x));
                }
            }
        }
        if rest.contains(x) {
            assert(pool.contains(x) && x != a && x != b);
            assert(in_pairs(m, x));
            let i = choose|i: int| 0 <= i < m.len() && #[trigger] plays_in(m[i], x);
            assert(i != k);
            let ri = if i < k { i } else { i - 1 };
            assert(r[ri] == m[i]);
            assert(plays_in(r[ri], x));
        }
    }
}

/// A pool of one cannot be paired off.
proof fn lemma_single_unmatchable(pool: Seq<usize>, m: Seq<(usize, usize)>)
    requires
        pool.len() == 1,
    ensures
        !matches_pool(pool, m),
{
    if matches_pool(pool, m) {
        let a = pool[0];
        assert(pool.contains(a));
        assert(in_pairs(m, a));
        let k = choose|k: int| 0 <= k < m.len() && #[trigger] plays_in(m[k], a);
        let other = if m[k].0 == a { m[k].1 } else { m[k].0 };
        assert(plays_in(m[k], other));
        assert(in_pairs(m, other));
        assert(pool.contains(other));
    }
}

fn pair_over_exec(arena: &Vec<Contestant>, a: usize, b: usize, max_repeats: u64) -> (r: bool)
    requires
        arena_ok(arena@),
        a < arena@.len(),
        b < arena@.len(),
    ensures
        r == pair_over(arena@, a, b, max_repeats),
{
    proof {
        lemma_meetings_le_len(arena@[a as int].games@, b);
        lemma_meetings_le_len(arena@[b as int].games@, a);
    }
    arena[a].meetings_with(b) as u64 > max_repeats || arena[b].meetings_with(a) as u64 > max_repeats
}

/// Whether every pairing of `pairs` stays within the repeat limit.
pub fn all_within_limit(arena: &Vec<Contestant>, pairs: &Vec<(usize, usize)>, max_repeats: u64) -> (r: bool)
    requires
        arena_ok(arena@),
        forall|k: int| 0 <= k < pairs@.len() ==> (#[trigger] pairs@[k]).0 < arena@.len() && pairs@[k].1 < arena@.len(),
    ensures
        r == within_limit(arena@, max_repeats, pairs@),
{
    let mut k: usize = 0;
    while k < pairs.len()
        invariant
            k <= pairs@.len(),
            arena_ok(arena@),
            forall|j: int| 0 <= j < pairs@.len() ==> (#[trigger] pairs@[j]).0 < arena@.len() && pairs@[j].1 < arena@.len(),
            forall|j: int| 0 <= j < k ==> !pair_over(arena@, (#[trigger] pairs@[j]).0, pairs@[j].1, max_repeats),
        decreases pairs@.len() - k,
    {
        let (a, b) = pairs[k];
        if pair_over_exec(arena, a, b, max_repeats) {
            return false;
        }
        k = k + 1;
    }
    true
}

/// Searches all ways of pairing off `pool`, by backtracking, for one that
/// stays within the repeat limit. The highest ranked contestant left is tried
/// against each partner in turn, in order. `None` means there is none.
pub fn find_matching(pool: Vec<usize>, arena: &Vec<Contestant>, max_repeats: u64) -> (r: Option<Vec<(usize, usize)>>)
    requires
        pool@.no_duplicates(),
        arena_ok(arena@),
        ids_in(pool@, arena@.len() as int),
    ensures
        r matches Some(m) ==> matches_pool(pool@, m@) && within_limit(arena@, max_repeats, m@),
        r is None ==> !limit_feasible(arena@, max_repeats, pool@),
    decreases pool@.len(),
{
    if pool.len() == 0 {
        let m: Vec<(usize, usize)> = Vec::new();
        proof {
            assert forall|x: usize| #[trigger] in_pairs(m@, x) <==> pool@.contains(x) by {}
        }
        return Some(m);
    }
    if pool.len() == 1 {
        proof {
            if limit_feasible(arena@, max_repeats, pool@) {
                let m = choose|m: Seq<(usize, usize)>| matches_pool(pool@, m) && within_limit(arena@, max_repeats, m);
                lemma_single_unmatchable(pool@, m);
            }
        }
        return None;
    }
    let a = pool[0];
    let mut j: usize = 1;
    while j < pool.len()
        invariant
            1 <= j <= pool@.len(),
            pool@.len() >= 2,
            a == pool@[0],
            pool@.no_duplicates(),
            arena_ok(arena@),
            ids_in(pool@, arena@.len() as int),
            forall|i: int| 1 <= i < j && !pair_over(arena@, a, #[trigger] pool@[i], max_repeats)
                ==> !limit_feasible(arena@, max_repeats, pool@.remove(i).remove(0)),
        decreases pool@.len() - j,
    {
        let b = pool[j];
        if !pair_over_exec(arena, a, b, max_repeats) {
            let mut rest = pool.clone();
            proof {
                assert(rest@ =~= pool@);
                lemma_remove_distinct(pool@, j as int);
                assert(pool@.remove(j as int)[0] == a);
                lemma_remove_distinct(pool@.remove(j as int), 0);
            }
            rest.remove(j);
            rest.remove(0);
            proof {
                assert forall|i: int| 0 <= i < rest@.len() implies #[trigger] rest@[i] < arena@.len() by {
                    assert(pool@.contains(rest@[i]));
                }
            }
            match find_matching(rest, arena, max_repeats) {
                Some(m) => {
                    let ghost m0 = m@;
                    let mut m = m;
                    m.push((a, b));
                    proof {
                        let rs = pool@.remove(j as int).remove(0);
                        assert(m@ == m0.push((a, b)));
                        assert(a != b);
                        assert forall|x: usize| #[trigger] in_pairs(m@, x) <==> (in_pairs(m0, x) || x == a || x == b) by {
                            lemma_in_pairs_push(m0, (a, b), x);
                        }
                        assert forall|x: usize| #[trigger] in_pairs(m@, x) <==> pool@.contains(x) by {
                            assert(rs.contains(x) <==> (pool@.contains(x) && x != a && x != b));
                            assert(pool@.contains(a) && pool@.contains(b));
                        }
                        assert forall|k1: int, k2: int, x: usize|
                            0 <= k1 < k2 < m@.len() && #[trigger] plays_in(m@[k1], x) implies !#[trigger] plays_in(m@[k2], x) by {
                            if k2 == m0.len() {
                                assert(plays_in(m0[k1], x));
                                assert(in_pairs(m0, x));
                                assert(rs.contains(x));
                            } else {
                                assert(m@[k1] == m0[k1] && m@[k2] == m0[k2]);
                            }
                        }
                        assert forall|k: int| 0 <= k < m@.len() implies (#[trigger] m@[k]).0 != m@[k].1 by {
                            if k < m0.len() {
                                assert(m@[k] == m0[k]);
                            }
                        }
                        assert forall|k: int| 0 <= k < m@.len() implies !pair_over(arena@, (#[trigger] m@[k]).0, m@[k].1, max_repeats) by {
                            if k < m0.len() {
                                assert(m@[k] == m0[k]);
                            }
                        }
                    }
                    return Some(m);
                },
                None => {},
            }
        }
        j = j + 1;
    }
    proof {
        if limit_feasible(arena@, max_repeats, pool@) {
            let m = choose|m: Seq<(usize, usize)>| matches_pool(pool@, m) && within_limit(arena@, max_repeats, m);
            assert(pool@.contains(a));
            assert(in_pairs(m, a));
            let k = choose|k: int| 0 <= k < m.len() && #[trigger] plays_in(m[k], a);
            let b = if m[k].0 == a { m[k].1 } else { m[k].0 };
            assert(plays_in(m[k], b));
            assert(in_pairs(m, b));
            assert(pool@.contains(b));
            let i = choose|i: int| 0 <= i < pool@.len() && pool@[i] == b;
            assert(i != 0);
            assert(!pair_over(arena@, m[k].0, m[k].1, max_repeats));
            assert(!pair_over(arena@, a, pool@[i], max_repeats));
            lemma_matching_split(pool@, m, k, i);
            assert(within_limit(arena@, max_repeats, m.remove(k))) by {
                assert forall|q: int| 0 <= q < m.remove(k).len() implies !pair_over(arena@, (#[trigger] m.remove(k)[q]).0, m.remove(k)[q].1, max_repeats) by {
                    let qq = if q < k { q } else { q + 1 };
                    assert(m.remove(k)[q] == m[qq]);
                }
            }
            assert(limit_feasible(arena@, max_repeats, pool@.remove(i).remove(0)));
        }
    }
    None
}

/// Pairs off `pool`, ordered from the highest ranked to the lowest. The
/// step-by-step cheapest pairing is kept when it stays within the repeat
/// limit; otherwise a pairing-off within the limit is searched for and taken
/// when there is one. So the result stays within the limit whenever some
/// pairing-off of `pool` does.
pub fn pair_round(
    pool: Vec<usize>,
    arena: &Vec<Contestant>,
    keys: &Vec<RankKey>,
    first_move: bool,
    max_repeats: u64,
) -> (pairs: Vec<(usize, usize)>)
    requires
        pool@.len() % 2 == 0,
        pool@.no_duplicates(),
        pairing_ready(arena@, keys@, pool@),
        sorted_by_rank(pool@, keys@),
    ensures
        matches_pool(pool@, pairs@),
        choices_minimal(arena@, keys@, first_move, max_repeats, pairs@) || within_limit(arena@, max_repeats, pairs@),
        limit_feasible(arena@, max_repeats, pool@) ==> within_limit(arena@, max_repeats, pairs@),
{
    let greedy = pair_pool(pool.clone(), arena, keys, first_move, max_repeats);
    proof {
        assert forall|k: int| 0 <= k < greedy@.len() implies (#[trigger] greedy@[k]).0 < arena@.len() && greedy@[k].1 < arena@.len() by {
            assert(plays_in(greedy@[k], greedy@[k].0) && plays_in(greedy@[k], greedy@[k].1));
            assert(in_pairs(greedy@, greedy@[k].0) && in_pairs(greedy@, greedy@[k].1));
        }
    }
    if all_within_limit(arena, &greedy, max_repeats) {
        return greedy;
    }
    match find_matching(pool, arena, max_repeats) {
        Some(m) => m,
        None => greedy,
    }
}

} // verus!
