//! The evaluation state of an ability stone being faceted.

use crate::chance::Chance;
use vstd::prelude::*;

verus! {

/// The current state of an ability stone: the ladder level, the successes
/// landed so far on each of the three lines, and the trials consumed so far
/// on each line.
///
/// A `Stone` is an immutable value; `succeed` and `fail` produce new states.
#[derive(Copy, Clone, Debug, PartialEq, Eq, Structural, Hash)]
pub struct Stone {
    /// Current chance of success.
    pub chance: Chance,
    /// Number of successful rolls per line.
    pub line0: u8,
    pub line1: u8,
    pub line2: u8,
    /// Number of total attempts per line.
    pub roll0: u8,
    pub roll1: u8,
    pub roll2: u8,
}

impl Stone {
    /// Successes so far on line `l` (0, 1 or 2).
    pub open spec fn line(self, l: int) -> u8 {
        if l == 0 {
            self.line0
        } else if l == 1 {
            self.line1
        } else {
            self.line2
        }
    }

    /// Attempts so far on line `l` (0, 1 or 2).
    pub open spec fn roll(self, l: int) -> u8 {
        if l == 0 {
            self.roll0
        } else if l == 1 {
            self.roll1
        } else {
            self.roll2
        }
    }

    /// Total attempts so far over all three lines.
    pub open spec fn total_rolls(self) -> int {
        self.roll0 + self.roll1 + self.roll2
    }

    /// The state after a successful roll on line `l`: that line gains a
    /// success and an attempt, and the ladder drops one step.
    pub open spec fn spec_succeed(self, l: int) -> Stone {
        Stone {
            chance: self.chance.spec_succeed(),
            line0: if l == 0 {
                (self.line0 + 1) as u8
            } else {
                self.line0
            },
            line1: if l == 1 {
                (self.line1 + 1) as u8
            } else {
                self.line1
            },
            line2: if l == 2 {
                (self.line2 + 1) as u8
            } else {
                self.line2
            },
            roll0: if l == 0 {
                (self.roll0 + 1) as u8
            } else {
                self.roll0
            },
            roll1: if l == 1 {
                (self.roll1 + 1) as u8
            } else {
                self.roll1
            },
            roll2: if l == 2 {
                (self.roll2 + 1) as u8
            } else {
                self.roll2
            },
        }
    }

    /// The state after a failed roll on line `l`: that line gains an attempt
    /// but no success, and the ladder climbs one step.
    pub open spec fn spec_fail(self, l: int) -> Stone {
        Stone {
            chance: self.chance.spec_fail(),
            roll0: if l == 0 {
                (self.roll0 + 1) as u8
            } else {
                self.roll0
            },
            roll1: if l == 1 {
                (self.roll1 + 1) as u8
            } else {
                self.roll1
            },
            roll2: if l == 2 {
                (self.roll2 + 1) as u8
            } else {
                self.roll2
            },
            ..self
        }
    }

    /// Construct a stone from explicit fields.
    pub fn new(chance: Chance, lines: [u8; 3], rolls: [u8; 3]) -> (s: Stone)
        ensures
            s.chance == chance,
            s.line0 == lines[0] && s.line1 == lines[1] && s.line2 == lines[2],
            s.roll0 == rolls[0] && s.roll1 == rolls[1] && s.roll2 == rolls[2],
    {
        Stone {
            chance,
            line0: lines[0],
            line1: lines[1],
            line2: lines[2],
            roll0: rolls[0],
            roll1: rolls[1],
            roll2: rolls[2],
        }
    }

    /// Successes so far on each line.
    pub fn lines(&self) -> (r: [u8; 3])
        ensures
            r@ == seq![self.line0, self.line1, self.line2],
    {
        let r = [self.line0, self.line1, self.line2];
        proof {
            assert(r@ =~= seq![self.line0, self.line1, self.line2]);
        }
        r
    }

    /// Attempts so far on each line.
    pub fn rolls(&self) -> (r: [u8; 3])
        ensures
            r@ == seq![self.roll0, self.roll1, self.roll2],
    {
        let r = [self.roll0, self.roll1, self.roll2];
        proof {
            assert(r@ =~= seq![self.roll0, self.roll1, self.roll2]);
        }
        r
    }

    /// Successes so far on line `line`.
    pub fn line_at(&self, line: usize) -> (r: u8)
        requires
            line < 3,
        ensures
            r == self.line(line as int),
    {
        if line == 0 {
            self.line0
        } else if line == 1 {
            self.line1
        } else {
            self.line2
        }
    }

    /// Attempts so far on line `line`.
    pub fn roll_at(&self, line: usize) -> (r: u8)
        requires
            line < 3,
        ensures
            r == self.roll(line as int),
    {
        if line == 0 {
            self.roll0
        } else if line == 1 {
            self.roll1
        } else {
            self.roll2
        }
    }

    /// State transition after succeeding a roll for `line`.
    pub fn succeed(&self, line: usize) -> (s: Stone)
        requires
            line < 3,
            self.line(line as int) < 255,
            self.roll(line as int) < 255,
        ensures
            s == self.spec_succeed(line as int),
    {
        Stone {
            chance: self.chance.succeed(),
            line0: if line == 0 {
                self.line0 + 1
            } else {
                self.line0
            },
            line1: if line == 1 {
                self.line1 + 1
            } else {
                self.line1
            },
            line2: if line == 2 {
                self.line2 + 1
            } else {
                self.line2
            },
            roll0: if line == 0 {
                self.roll0 + 1
            } else {
                self.roll0
            },
            roll1: if line == 1 {
                self.roll1 + 1
            } else {
                self.roll1
            },
            roll2: if line == 2 {
                self.roll2 + 1
            } else {
                self.roll2
            },
        }
    }

    /// State transition after failing a roll for `line`.
    pub fn fail(&self, line: usize) -> (s: Stone)
        requires
            line < 3,
            self.roll(line as int) < 255,
        ensures
            s == self.spec_fail(line as int),
    {
        Stone {
            chance: self.chance.fail(),
            roll0: if line == 0 {
                self.roll0 + 1
            } else {
                self.roll0
            },
            roll1: if line == 1 {
                self.roll1 + 1
            } else {
                self.roll1
            },
            roll2: if line == 2 {
                self.roll2 + 1
            } else {
                self.roll2
            },
            ..*self
        }
    }
}

impl Default for Stone {
    /// A fresh stone: the ladder starts at 75% and nothing has been rolled.
    fn default() -> (s: Stone)
        ensures
            s.chance == Chance::P75,
            s.line0 == 0 && s.line1 == 0 && s.line2 == 0,
            s.roll0 == 0 && s.roll1 == 0 && s.roll2 == 0,
    {
        Stone { chance: Chance::P75, line0: 0, line1: 0, line2: 0, roll0: 0, roll1: 0, roll2: 0 }
    }
}

} // verus!
