use vstd::prelude::*;

verus! {

/// Tie-break value of a contestant; a greater seed ranks higher.
///
/// `Elo` is rating based: an unrated contestant ranks below every rated one.
/// `Rank` is placement based: a smaller placement is better and an unplaced
/// contestant ranks below every placed one. In both forms `rand` breaks the
/// remaining ties, so distinct seeds never compare equal. An `Elo` seed ranks
/// below every `Rank` seed; a tournament normally uses one form only.
#[derive(Clone, Copy, Debug, PartialEq, Eq, Structural)]
pub enum Seed {
    Elo { elo: Option<u64>, rand: u64 },
    Rank { rank: Option<u64>, rand: u64 },
}

/// First component of the seed order: which form the seed has.
pub open spec fn seed_form(s: Seed) -> int {
    match s {
        Seed::Elo { .. } => 0,
        Seed::Rank { .. } => 1,
    }
}

/// Second component of the seed order: the rating or placement, as a level
/// where a greater value is better and an absent one is lowest.
pub open spec fn seed_level(s: Seed) -> int {
    match s {
        Seed::Elo { elo, .. } => match elo {
            Some(e) => e + 1,
            None => 0,
        },
        Seed::Rank { rank, .. } => match rank {
            Some(r) => u64::MAX + 1 - r,
            None => 0,
        },
    }
}

pub open spec fn seed_rand(s: Seed) -> int {
    match s {
        Seed::Elo { rand, .. } => rand as int,
        Seed::Rank { rand, .. } => rand as int,
    }
}

/// `a` ranks strictly above `b` in the seed order.
pub open spec fn seed_above(a: Seed, b: Seed) -> bool {
    ||| seed_form(a) > seed_form(b)
    ||| seed_form(a) == seed_form(b) && seed_level(a) > seed_level(b)
    ||| seed_form(a) == seed_form(b) && seed_level(a) == seed_level(b) && seed_rand(a) > seed_rand(b)
}

/// Seeds with the same position in the order are the same seed.
pub proof fn lemma_seed_key_injective(a: Seed, b: Seed)
    requires
        seed_form(a) == seed_form(b),
        seed_level(a) == seed_level(b),
        seed_rand(a) == seed_rand(b),
    ensures
        a == b,
{
}

fn level_of(s: &Seed) -> (r: (u8, bool, u64))
    ensures
        r.0 as int == seed_form(*s),
        !r.1 ==> seed_level(*s) == 0,
        r.1 ==> seed_level(*s) == (if r.0 == 0 { r.2 + 1 } else { u64::MAX + 1 - r.2 }),
{
    match s {
        Seed::Elo { elo, .. } => match elo {
            Some(e) => (0, true, *e),
            None => (0, false, 0),
        },
        Seed::Rank { rank, .. } => match rank {
            Some(r) => (1, true, *r),
            None => (1, false, 0),
        },
    }
}

fn rand_of(s: &Seed) -> (r: u64)
    ensures
        r as int == seed_rand(*s),
{
    match s {
        Seed::Elo { rand, .. } => *rand,
        Seed::Rank { rand, .. } => *rand,
    }
}

impl Seed {
    /// Whether `self` ranks strictly above `other`.
    pub fn ranks_above(&self, other: &Seed) -> (r: bool)
        ensures
            r == seed_above(*self, *other),
    {
        let (fa, pa, va) = level_of(self);
        let (fb, pb, vb) = level_of(other);
        if fa != fb {
            return fa > fb;
        }
        if pa != pb {
            return pa;
        }
        if pa && va != vb {
            return if fa == 0 { va > vb } else { va < vb };
        }
        rand_of(self) > rand_of(other)
    }
}

} // verus!
