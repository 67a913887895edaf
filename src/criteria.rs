use vstd::prelude::*;

verus! {

/// Hard pairing criteria of a candidate assignment; lower is better and each
/// field should be zero whenever that is feasible. They are counted over the
/// whole round.
#[derive(Clone, Copy, Debug, PartialEq, Eq, Structural)]
pub struct StrongPairingCriteria {
    pub bye_repeats: u64,
    pub max_pairing_repeats: u64,
    pub pairing_repeats: u64,
    pub absolute_preference_violations: u64,
}

/// Soft pairing criteria of a candidate assignment within a bracket; lower is
/// better, compared field by field in declaration order. For the two floater
/// score sums a greater value is better.
#[derive(Clone, Copy, Debug, PartialEq, Eq, Structural)]
pub struct WeakPairingCriteria {
    pub outgoing_floaters: u64,
    pub unpaired_floaters: u64,
    pub sum_score_paired_floaters: u64,
    pub next_unpaired_floaters: u64,
    pub next_sum_score_paired_floaters: u64,
    pub strong_preference_violations: u64,
    pub weak_preference_violations: u64,
}

/// `a` is strictly better than `b`: lexicographically smaller.
pub open spec fn strong_better(a: StrongPairingCriteria, b: StrongPairingCriteria) -> bool {
    ||| a.bye_repeats < b.bye_repeats
    ||| a.bye_repeats == b.bye_repeats && a.max_pairing_repeats < b.max_pairing_repeats
    ||| a.bye_repeats == b.bye_repeats && a.max_pairing_repeats == b.max_pairing_repeats
        && a.pairing_repeats < b.pairing_repeats
    ||| a.bye_repeats == b.bye_repeats && a.max_pairing_repeats == b.max_pairing_repeats
        && a.pairing_repeats == b.pairing_repeats && a.absolute_preference_violations
        < b.absolute_preference_violations
}

/// `a` is strictly better than `b`: lexicographically smaller, with the two
/// floater score sums negated.
pub open spec fn weak_better(a: WeakPairingCriteria, b: WeakPairingCriteria) -> bool {
    ||| a.outgoing_floaters < b.outgoing_floaters
    ||| a.outgoing_floaters == b.outgoing_floaters && a.unpaired_floaters < b.unpaired_floaters
    ||| a.outgoing_floaters == b.outgoing_floaters && a.unpaired_floaters == b.unpaired_floaters
        && a.sum_score_paired_floaters > b.sum_score_paired_floaters
    ||| a.outgoing_floaters == b.outgoing_floaters && a.unpaired_floaters == b.unpaired_floaters
        && a.sum_score_paired_floaters == b.sum_score_paired_floaters && a.next_unpaired_floaters
        < b.next_unpaired_floaters
    ||| a.outgoing_floaters == b.outgoing_floaters && a.unpaired_floaters == b.unpaired_floaters
        && a.sum_score_paired_floaters == b.sum_score_paired_floaters && a.next_unpaired_floaters
        == b.next_unpaired_floaters && a.next_sum_score_paired_floaters
        > b.next_sum_score_paired_floaters
    ||| a.outgoing_floaters == b.outgoing_floaters && a.unpaired_floaters == b.unpaired_floaters
        && a.sum_score_paired_floaters == b.sum_score_paired_floaters && a.next_unpaired_floaters
        == b.next_unpaired_floaters && a.next_sum_score_paired_floaters
        == b.next_sum_score_paired_floaters && a.strong_preference_violations
        < b.strong_preference_violations
    ||| a.outgoing_floaters == b.outgoing_floaters && a.unpaired_floaters == b.unpaired_floaters
        && a.sum_score_paired_floaters == b.sum_score_paired_floaters && a.next_unpaired_floaters
        == b.next_unpaired_floaters && a.next_sum_score_paired_floaters
        == b.next_sum_score_paired_floaters && a.strong_preference_violations
        == b.strong_preference_violations && a.weak_preference_violations
        < b.weak_preference_violations
}

impl StrongPairingCriteria {
    pub fn zero() -> (r: StrongPairingCriteria)
        ensures
            r.bye_repeats == 0,
            r.max_pairing_repeats == 0,
            r.pairing_repeats == 0,
            r.absolute_preference_violations == 0,
    {
        StrongPairingCriteria {
            bye_repeats: 0,
            max_pairing_repeats: 0,
            pairing_repeats: 0,
            absolute_preference_violations: 0,
        }
    }

    /// Combines the criteria of two parts of a round: counts add up, the
    /// worst repeat count is the larger of the two.
    pub fn add(self, rhs: StrongPairingCriteria) -> (r: StrongPairingCriteria)
        requires
            self.bye_repeats + rhs.bye_repeats <= u64::MAX,
            self.pairing_repeats + rhs.pairing_repeats <= u64::MAX,
            self.absolute_preference_violations + rhs.absolute_preference_violations <= u64::MAX,
        ensures
            r.bye_repeats == self.bye_repeats + rhs.bye_repeats,
            r.max_pairing_repeats == if self.max_pairing_repeats >= rhs.max_pairing_repeats {
                self.max_pairing_repeats
            } else {
                rhs.max_pairing_repeats
            },
            r.pairing_repeats == self.pairing_repeats + rhs.pairing_repeats,
            r.absolute_preference_violations == self.absolute_preference_violations
                + rhs.absolute_preference_violations,
    {
        StrongPairingCriteria {
            bye_repeats: self.bye_repeats + rhs.bye_repeats,
            max_pairing_repeats: if self.max_pairing_repeats >= rhs.max_pairing_repeats {
                self.max_pairing_repeats
            } else {
                rhs.max_pairing_repeats
            },
            pairing_repeats: self.pairing_repeats + rhs.pairing_repeats,
            absolute_preference_violations: self.absolute_preference_violations
                + rhs.absolute_preference_violations,
        }
    }

    /// Whether `self` is strictly better than `other`.
    pub fn better_than(&self, other: &StrongPairingCriteria) -> (r: bool)
        ensures
            r == strong_better(*self, *other),
    {
        if self.bye_repeats != other.bye_repeats {
            self.bye_repeats < other.bye_repeats
        } else if self.max_pairing_repeats != other.max_pairing_repeats {
            self.max_pairing_repeats < other.max_pairing_repeats
        } else if self.pairing_repeats != other.pairing_repeats {
            self.pairing_repeats < other.pairing_repeats
        } else {
            self.absolute_preference_violations < other.absolute_preference_violations
        }
    }
}

impl WeakPairingCriteria {
    /// Whether `self` is strictly better than `other`.
    pub fn better_than(&self, other: &WeakPairingCriteria) -> (r: bool)
        ensures
            r == weak_better(*self, *other),
    {
        if self.outgoing_floaters != other.outgoing_floaters {
            self.outgoing_floaters < other.outgoing_floaters
        } else if self.unpaired_floaters != other.unpaired_floaters {
            self.unpaired_floaters < other.unpaired_floaters
        } else if self.sum_score_paired_floaters != other.sum_score_paired_floaters {
            self.sum_score_paired_floaters > other.sum_score_paired_floaters
        } else if self.next_unpaired_floaters != other.next_unpaired_floaters {
            self.next_unpaired_floaters < other.next_unpaired_floaters
        } else if self.next_sum_score_paired_floaters != other.next_sum_score_paired_floaters {
            self.next_sum_score_paired_floaters > other.next_sum_score_paired_floaters
        } else if self.strong_preference_violations != other.strong_preference_violations {
            self.strong_preference_violations < other.strong_preference_violations
        } else {
            self.weak_preference_violations < other.weak_preference_violations
        }
    }
}

} // verus!
