use vstd::prelude::*;
use crate::contestant::{Contestant, RankKey, arena_ok, had_bye, key_above, key_at};

verus! {

/// The current ranking key of every contestant of `arena`, indexed alike.
pub open spec fn arena_keys(arena: Seq<Contestant>) -> Seq<RankKey> {
    Seq::new(arena.len(), |i: int| key_at(arena, i))
}

/// `keys` holds the current ranking key of every contestant of `arena`.
pub open spec fn keys_of(arena: Seq<Contestant>, keys: Seq<RankKey>) -> bool {
    &&& keys.len() == arena.len()
    &&& forall|i: int| 0 <= i < arena.len() ==> #[trigger] keys[i] == key_at(arena, i)
}

/// Every index of `ids` is in range of `keys`.
pub open spec fn ids_in(ids: Seq<usize>, n: int) -> bool {
    forall|i: int| 0 <= i < ids.len() ==> #[trigger] ids[i] < n
}

/// `order` lists contestants from the highest ranked to the lowest: no entry
/// ranks above an entry before it.
pub open spec fn sorted_by_rank(order: Seq<usize>, keys: Seq<RankKey>) -> bool {
    forall|i: int, j: int|
        0 <= i < j < order.len() ==> !key_above(#[trigger] keys[order[j] as int], #[trigger] keys[order[i] as int])
}

/// Removing one entry of a sequence without duplicates removes exactly that
/// value and keeps the rest free of duplicates.
pub proof fn lemma_remove_distinct(s: Seq<usize>, i: int)
    requires
        s.no_duplicates(),
        0 <= i < s.len(),
    ensures
        s.remove(i).no_duplicates(),
        s.remove(i).len() == s.len() - 1,
        forall|x: usize| #[trigger] s.remove(i).contains(x) <==> (s.contains(x) && x != s[i]),
{
    let r = s.remove(i);
    assert forall|x: usize| #[trigger] r.contains(x) <==> (s.contains(x) && x != s[i]) by {
        if r.contains(x) {
            let k = choose|k: int| 0 <= k < r.len() && r[k] == x;
            if k < i {
                assert(s[k] == x);
            } else {
                assert(s[k + 1] == x);
            }
        }
        if s.contains(x) && x != s[i] {
            let k = choose|k: int| 0 <= k < s.len() && s[k] == x;
            if k < i {
                assert(r[k] == x);
            } else {
                assert(r[k - 1] == x);
            }
        }
    }
}

/// Pushing a value adds exactly that value.
pub proof fn lemma_push_contains(s: Seq<usize>, y: usize)
    ensures
        forall|x: usize| #[trigger] s.push(y).contains(x) <==> (s.contains(x) || x == y),
{
    assert forall|x: usize| #[trigger] s.push(y).contains(x) <==> (s.contains(x) || x == y) by {
        if s.push(y).contains(x) {
            let k = choose|k: int| 0 <= k < s.push(y).len() && s.push(y)[k] == x;
            if k < s.len() {
                assert(s[k] == x);
            }
        }
        if s.contains(x) {
            let k = choose|k: int| 0 <= k < s.len() && s[k] == x;
            assert(s.push(y)[k] == x);
        }
        if x == y {
            assert(s.push(y)[s.len() as int] == x);
        }
    }
}

/// A prefix one longer holds exactly one more value.
pub proof fn lemma_prefix_contains(s: Seq<usize>, i: int)
    requires
        0 <= i < s.len(),
    ensures
        forall|x: usize| #[trigger] s.subrange(0, i + 1).contains(x) <==> (s.subrange(0, i).contains(x) || x == s[i]),
{
    assert(s.subrange(0, i + 1) =~= s.subrange(0, i).push(s[i]));
    lemma_push_contains(s.subrange(0, i), s[i]);
}

/// Removing an entry keeps an order sorted.
pub proof fn lemma_remove_sorted(s: Seq<usize>, keys: Seq<RankKey>, i: int)
    requires
        sorted_by_rank(s, keys),
        0 <= i < s.len(),
    ensures
        sorted_by_rank(s.remove(i), keys),
{
    let r = s.remove(i);
    assert forall|p: int, q: int| 0 <= p < q < r.len() implies !key_above(#[trigger] keys[r[q] as int], #[trigger] keys[r[p] as int]) by {
        let pp = if p < i { p } else { p + 1 };
        let qq = if q < i { q } else { q + 1 };
        assert(r[p] == s[pp]);
        assert(r[q] == s[qq]);
    }
}

/// The current ranking key of every contestant, indexed like the arena.
pub fn rank_keys(arena: &Vec<Contestant>) -> (keys: Vec<RankKey>)
    requires
        arena_ok(arena@),
    ensures
        keys_of(arena@, keys@),
{
    let mut keys: Vec<RankKey> = Vec::new();
    let mut i: usize = 0;
    while i < arena.len()
        invariant
            i <= arena@.len(),
            arena_ok(arena@),
            keys@.len() == i,
            forall|k: int| 0 <= k < i ==> #[trigger] keys@[k] == key_at(arena@, k),
        decreases arena@.len() - i,
    {
        keys.push(Contestant::rank_key(arena, i));
        i = i + 1;
    }
    keys
}

/// Orders `ids` from the highest ranked to the lowest by `keys`.
pub fn sort_by_rank(ids: Vec<usize>, keys: &Vec<RankKey>) -> (order: Vec<usize>)
    requires
        ids@.no_duplicates(),
        ids_in(ids@, keys@.len() as int),
    ensures
        order@.no_duplicates(),
        order@.len() == ids@.len(),
        forall|x: usize| #[trigger] order@.contains(x) <==> ids@.contains(x),
        ids_in(order@, keys@.len() as int),
        sorted_by_rank(order@, keys@),
{
    let mut pool = ids;
    let mut order: Vec<usize> = Vec::new();
    while pool.len() > 0
        invariant
            pool@.no_duplicates(),
            order@.no_duplicates(),
            order@.len() + pool@.len() == ids@.len(),
            forall|x: usize| #[trigger] order@.contains(x) ==> !pool@.contains(x),
            forall|x: usize| ids@.contains(x) <==> (#[trigger] order@.contains(x) || pool@.contains(x)),
            ids_in(pool@, keys@.len() as int),
            ids_in(order@, keys@.len() as int),
            sorted_by_rank(order@, keys@),
            forall|i: int, k: int|
                0 <= i < order@.len() && 0 <= k < pool@.len() ==> !key_above(
                    #[trigger] keys@[pool@[k] as int],
                    #[trigger] keys@[order@[i] as int],
                ),
        decreases pool@.len(),
    {
        let mut best: usize = 0;
        let mut j: usize = 1;
        while j < pool.len()
            invariant
                0 < pool@.len(),
                best < j <= pool@.len(),
                ids_in(pool@, keys@.len() as int),
                forall|k: int| 0 <= k < j ==> !key_above(#[trigger] keys@[pool@[k] as int], keys@[pool@[best as int] as int]),
            decreases pool@.len() - j,
        {
            if keys[pool[j]].ranks_above(&keys[pool[best]]) {
                proof {
                    assert forall|k: int| 0 <= k < j implies !key_above(#[trigger] keys@[pool@[k] as int], keys@[pool@[j as int] as int]) by {
                        crate::contestant::lemma_key_order(keys@[pool@[k] as int], keys@[pool@[best as int] as int], keys@[pool@[j as int] as int]);
                        crate::contestant::lemma_key_order(keys@[pool@[k] as int], keys@[pool@[j as int] as int], keys@[pool@[best as int] as int]);
                    }
                }
                best = j;
            }
            j = j + 1;
        }
        let ghost old_pool = pool@;
        let ghost old_order = order@;
        proof {
            lemma_remove_distinct(pool@, best as int);
        }
        let x = pool.remove(best);
        order.push(x);
        proof {
            assert(old_pool.contains(x));
            assert forall|y: usize| #[trigger] order@.contains(y) <==> (old_order.contains(y) || y == x) by {
                if order@.contains(y) {
                    let k = choose|k: int| 0 <= k < order@.len() && order@[k] == y;
                    if k < old_order.len() {
                        assert(old_order[k] == y);
                    }
                }
                if y == x {
                    assert(order@[old_order.len() as int] == y);
                }
                if old_order.contains(y) {
                    let k = choose|k: int| 0 <= k < old_order.len() && old_order[k] == y;
                    assert(order@[k] == y);
                }
            }
            assert forall|y: usize| ids@.contains(y) <==> (#[trigger] order@.contains(y) || pool@.contains(y)) by {
                assert(old_order.contains(y) || old_pool.contains(y) <==> ids@.contains(y));
            }
            assert forall|i: int, k: int|
                0 <= i < order@.len() && 0 <= k < pool@.len() implies !key_above(
                    #[trigger] keys@[pool@[k] as int],
                    #[trigger] keys@[order@[i] as int],
                ) by {
                let kk = if k < best { k } else { k + 1 };
                assert(pool@[k] == old_pool[kk]);
                if i < old_order.len() {
                    assert(order@[i] == old_order[i]);
                }
            }
            assert forall|i: int, j: int|
                0 <= i < j < order@.len() implies !key_above(#[trigger] keys@[order@[j] as int], #[trigger] keys@[order@[i] as int]) by {
                if j < old_order.len() {
                    assert(order@[j] == old_order[j]);
                }
                assert(order@[i] == old_order[i]);
            }
            assert(order@.no_duplicates()) by {
                assert forall|i: int, j: int| 0 <= i < j < order@.len() implies order@[i] != order@[j] by {
                    assert(order@[i] == old_order[i]);
                    if j < old_order.len() {
                        assert(order@[j] == old_order[j]);
                    } else {
                        assert(old_order.contains(order@[i]));
                    }
                }
            }
        }
    }
    order
}

/// Position in `order` of the contestant who gets the bye: the last one that
/// has not had a bye yet, or the last one of all when every one has had one.
pub fn choose_bye(order: &Vec<usize>, arena: &Vec<Contestant>) -> (b: usize)
    requires
        order@.len() > 0,
        ids_in(order@, arena@.len() as int),
    ensures
        b < order@.len(),
        forall|i: int| b < i < order@.len() ==> had_bye(arena@[#[trigger] order@[i] as int].games@),
        !had_bye(arena@[order@[b as int] as int].games@) || b == order@.len() - 1,
        had_bye(arena@[order@[b as int] as int].games@) ==> forall|i: int| 0 <= i < order@.len() ==> had_bye(arena@[#[trigger] order@[i] as int].games@),
{
    let mut i: usize = order.len();
    while i > 0
        invariant
            i <= order@.len(),
            ids_in(order@, arena@.len() as int),
            forall|k: int| i <= k < order@.len() ==> had_bye(arena@[#[trigger] order@[k] as int].games@),
        decreases i,
    {
        if !arena[order[i - 1]].has_had_bye() {
            return i - 1;
        }
        i = i - 1;
    }
    order.len() - 1
}

/// `bye` is a fair bye for the contestants `ids`: there is one exactly when
/// their number is odd; it goes to one who has not had a bye unless all have
/// had one; and no such eligible contestant ranks below it.
pub open spec fn bye_fair(arena: Seq<Contestant>, ids: Seq<usize>, bye: Option<usize>) -> bool {
    match bye {
        None => ids.len() % 2 == 0,
        Some(y) => {
            &&& ids.len() % 2 == 1
            &&& ids.contains(y)
            &&& had_bye(arena[y as int].games@) ==> forall|x: usize| #[trigger] ids.contains(x) ==> had_bye(arena[x as int].games@)
            &&& forall|x: usize|
                #[trigger] ids.contains(x) && x != y && (!had_bye(arena[x as int].games@) || had_bye(arena[y as int].games@))
                    ==> !key_above(key_at(arena, y as int), key_at(arena, x as int))
        },
    }
}

/// Takes the bye out of `order` when its length is odd.
pub fn take_bye(order: &mut Vec<usize>, arena: &Vec<Contestant>, keys: &Vec<RankKey>) -> (bye: Option<usize>)
    requires
        old(order)@.no_duplicates(),
        ids_in(old(order)@, arena@.len() as int),
        keys_of(arena@, keys@),
        sorted_by_rank(old(order)@, keys@),
    ensures
        final(order)@.no_duplicates(),
        ids_in(final(order)@, arena@.len() as int),
        final(order)@.len() % 2 == 0,
        sorted_by_rank(final(order)@, keys@),
        bye_fair(arena@, old(order)@, bye),
        forall|x: usize| #[trigger] old(order)@.contains(x) <==> (final(order)@.contains(x) || bye == Some(x)),
        bye matches Some(y) ==> !final(order)@.contains(y),
{
    if order.len() % 2 == 0 {
        return None;
    }
    let ghost o = order@;
    let b = choose_bye(order, arena);
    proof {
        lemma_remove_distinct(o, b as int);
        lemma_remove_sorted(o, keys@, b as int);
        let y = o[b as int];
        assert(o.contains(y));
        assert forall|x: usize|
            #[trigger] o.contains(x) && x != y && (!had_bye(arena@[x as int].games@) || had_bye(arena@[y as int].games@))
                implies !key_above(key_at(arena@, y as int), key_at(arena@, x as int)) by {
            let i = choose|i: int| 0 <= i < o.len() && o[i] == x;
            assert(i != b);
            if i > b {
                assert(had_bye(arena@[o[i] as int].games@));
            } else {
                assert(!key_above(keys@[o[b as int] as int], keys@[o[i] as int]));
            }
        }
        assert(had_bye(arena@[y as int].games@) ==> forall|x: usize| #[trigger] o.contains(x) ==> had_bye(arena@[x as int].games@)) by {
            if had_bye(arena@[y as int].games@) {
                assert forall|x: usize| #[trigger] o.contains(x) implies had_bye(arena@[x as int].games@) by {
                    let i = choose|i: int| 0 <= i < o.len() && o[i] == x;
                    assert(had_bye(arena@[o[i] as int].games@));
                }
            }
        }
    }
    let y = order.remove(b);
    Some(y)
}

} // verus!
