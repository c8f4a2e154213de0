//! The six-level success-rate ladder.

use crate::u192::U192;
use vstd::prelude::*;

verus! {

/// The set of valid success rates during faceting, labeled by percentage.
///
/// Weights are tracked scaled by 20, so that a level's success and failure
/// weights are small integers summing to 20 (5% granularity).
#[derive(Copy, Clone, Debug, PartialEq, Eq, Structural, Hash)]
pub enum Chance {
    P25,
    P35,
    P45,
    P55,
    P65,
    P75,
}

impl Chance {
    /// Position of the level on the ladder, 0 for 25% up to 5 for 75%.
    pub open spec fn spec_ladder_index(self) -> int {
        match self {
            Chance::P25 => 0,
            Chance::P35 => 1,
            Chance::P45 => 2,
            Chance::P55 => 3,
            Chance::P65 => 4,
            Chance::P75 => 5,
        }
    }

    /// The level one step toward 25%, clamped at 25%.
    pub open spec fn spec_succeed(self) -> Chance {
        match self {
            Chance::P25 => Chance::P25,
            Chance::P35 => Chance::P25,
            Chance::P45 => Chance::P35,
            Chance::P55 => Chance::P45,
            Chance::P65 => Chance::P55,
            Chance::P75 => Chance::P65,
        }
    }

    /// The level one step toward 75%, clamped at 75%.
    pub open spec fn spec_fail(self) -> Chance {
        match self {
            Chance::P25 => Chance::P35,
            Chance::P35 => Chance::P45,
            Chance::P45 => Chance::P55,
            Chance::P55 => Chance::P65,
            Chance::P65 => Chance::P75,
            Chance::P75 => Chance::P75,
        }
    }

    /// Probability of success, multiplied by 20.
    pub open spec fn success_weight(self) -> nat {
        match self {
            Chance::P25 => 5,
            Chance::P35 => 7,
            Chance::P45 => 9,
            Chance::P55 => 11,
            Chance::P65 => 13,
            Chance::P75 => 15,
        }
    }

    /// Probability of failure, multiplied by 20.
    pub open spec fn failure_weight(self) -> nat {
        (20 - self.success_weight()) as nat
    }

    pub fn ladder_index(&self) -> (i: usize)
        ensures
            i == self.spec_ladder_index(),
    {
        match self {
            Chance::P25 => 0,
            Chance::P35 => 1,
            Chance::P45 => 2,
            Chance::P55 => 3,
            Chance::P65 => 4,
            Chance::P75 => 5,
        }
    }

    /// The level whose ladder position is `i`.
    pub fn from_ladder_index(i: usize) -> (c: Chance)
        requires
            i < 6,
        ensures
            c.spec_ladder_index() == i,
    {
        if i == 0 {
            Chance::P25
        } else if i == 1 {
            Chance::P35
        } else if i == 2 {
            Chance::P45
        } else if i == 3 {
            Chance::P55
        } else if i == 4 {
            Chance::P65
        } else {
            Chance::P75
        }
    }

    /// Every ladder level, in ladder order.
    pub fn all() -> (r: [Chance; 6])
        ensures
            r@ == seq![
                Chance::P25,
                Chance::P35,
                Chance::P45,
                Chance::P55,
                Chance::P65,
                Chance::P75,
            ],
    {
        let r = [Chance::P25, Chance::P35, Chance::P45, Chance::P55, Chance::P65, Chance::P75];
        proof {
            assert(r@ =~= seq![
                Chance::P25,
                Chance::P35,
                Chance::P45,
                Chance::P55,
                Chance::P65,
                Chance::P75,
            ]);
        }
        r
    }

    /// State transition after succeeding a roll.
    pub fn succeed(&self) -> (r: Chance)
        ensures
            r == self.spec_succeed(),
    {
        match self {
            Chance::P25 => Chance::P25,
            Chance::P35 => Chance::P25,
            Chance::P45 => Chance::P35,
            Chance::P55 => Chance::P45,
            Chance::P65 => Chance::P55,
            Chance::P75 => Chance::P65,
        }
    }

    /// State transition after failing a roll.
    pub fn fail(&self) -> (r: Chance)
        ensures
            r == self.spec_fail(),
    {
        match self {
            Chance::P25 => Chance::P35,
            Chance::P35 => Chance::P45,
            Chance::P45 => Chance::P55,
            Chance::P55 => Chance::P65,
            Chance::P65 => Chance::P75,
            Chance::P75 => Chance::P75,
        }
    }

    /// Probability of success, multiplied by 20.
    pub fn success(&self) -> (r: U192)
        ensures
            r@ == self.success_weight(),
    {
        U192::from_u64(self.success_u64())
    }

    /// Probability of failure, multiplied by 20.
    pub fn failure(&self) -> (r: U192)
        ensures
            r@ == self.failure_weight(),
    {
        U192::from_u64(self.failure_u64())
    }

    /// Probability of success, multiplied by 20, as a machine integer.
    pub fn success_u64(&self) -> (w: u64)
        ensures
            w == self.success_weight(),
    {
        match self {
            Chance::P25 => 5,
            Chance::P35 => 7,
            Chance::P45 => 9,
            Chance::P55 => 11,
            Chance::P65 => 13,
            Chance::P75 => 15,
        }
    }

    /// Probability of failure, multiplied by 20, as a machine integer.
    pub fn failure_u64(&self) -> (w: u64)
        ensures
            w == self.failure_weight(),
    {
        match self {
            Chance::P25 => 15,
            Chance::P35 => 13,
            Chance::P45 => 11,
            Chance::P55 => 9,
            Chance::P65 => 7,
            Chance::P75 => 5,
        }
    }
}

impl Default for Chance {
    /// The starting level of a fresh stone: 75%.
    fn default() -> (c: Chance)
        ensures
            c == Chance::P75,
    {
        Chance::P75
    }
}

/// The ladder is clamped at both ends: succeeding at the lowest level stays
/// at the lowest, and failing at the highest stays at the highest.
pub proof fn lemma_ladder_clamped()
    ensures
        Chance::P25.spec_succeed() == Chance::P25,
        Chance::P75.spec_fail() == Chance::P75,
{
}

/// On every level, the success and failure weights sum to the full scale 20.
pub proof fn lemma_weights_sum_to_scale(c: Chance)
    ensures
        c.success_weight() + c.failure_weight() == 20,
{
}

} // verus!
