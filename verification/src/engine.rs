//! The dense-table backward-induction engine.
//!
//! The reachable state space is enumerable, so instead of a hash-keyed
//! cache the engine fills a flat array sized exactly to the state count,
//! in decreasing order of total trials consumed: every cell a state's value
//! depends on belongs to a strictly later shell and is already correct when
//! it is read. That fill-order invariant (`filled_above`) is the
//! correctness argument of the whole scheme, and it is proved here.
//!
//! The same machinery fills the table for either objective: the expected
//! optimal-play value of every state, or the value of the best single run.

use crate::chance::Chance;
use crate::index::{
    cell_index, lemma_cell_index_bounds, lemma_cell_index_injective, lemma_digit_bounds,
    lemma_mixed_radix_bounds, lemma_table_size_positive, lemma_tri_formula, lemma_tri_monotone,
    line_size, table_size, tri,
};
use crate::stone::Stone;
use crate::u192::{u192_bound, U192};
use crate::valuation::{
    budget_total, left_measure, lemma_select_bounded, lemma_value_bounded, max2, rolls_left,
    run_value, select_value, step_value, stone_value, valid_targets, wf_state,
};
use vstd::arithmetic::mul::{
    lemma_mul_inequality, lemma_mul_is_commutative, lemma_mul_is_distributive_add,
    lemma_mul_upper_bound,
};
use vstd::arithmetic::power::{
    lemma_pow0, lemma_pow1, lemma_pow_adds, lemma_pow_distributes, lemma_pow_increases,
    lemma_pow_multiplies, lemma_pow_positive, lemma_pow_strictly_increases, pow,
};
use vstd::arithmetic::power2::{lemma2_to64, lemma2_to64_rest};
use vstd::prelude::*;

verus! {

/// Which question the table answers for every state.
#[derive(Copy, Clone, Debug, PartialEq, Eq, Structural)]
pub(crate) enum Objective {
    /// Optimal-play success probability: `stone_value`.
    Expectation,
    /// Probability of the single most probable run: `run_value`.
    BestRun,
}

/// The table entry a state is owed under objective `o`.
pub(crate) open spec fn objective_value(o: Objective, s: Stone, tl: Seq<u8>, tr: Seq<u8>) -> nat {
    match o {
        Objective::Expectation => stone_value(s, tl, tr),
        Objective::BestRun => run_value(s, tl, tr),
    }
}

/// The per-line contribution a state is owed under objective `o`.
pub(crate) open spec fn objective_choice(
    o: Objective,
    s: Stone,
    l: int,
    tl: Seq<u8>,
    tr: Seq<u8>,
) -> nat {
    match o {
        Objective::Expectation => select_value(s, l, tl, tr),
        Objective::BestRun => step_value(s, l, tl, tr),
    }
}

/// The valuation engine: a dense memo table over every reachable state.
pub(crate) struct Expectimax {
    pub(crate) mode: Objective,
    pub(crate) cache: Vec<U192>,
    pub(crate) lines: [u8; 3],
    pub(crate) rolls: [u8; 3],
    pub(crate) sizes: [usize; 3],
    pub(crate) powers: Vec<U192>,
}

impl Expectimax {
    /// Target successes per line.
    pub(crate) open spec fn tl(self) -> Seq<u8> {
        self.lines@
    }

    /// Trial budget per line.
    pub(crate) open spec fn tr(self) -> Seq<u8> {
        self.rolls@
    }

    /// The table is sized to the state space, the cached per-line slot
    /// counts are right, and the table of powers of 20 is complete.
    pub(crate) open spec fn wf(self) -> bool {
        &&& valid_targets(self.tr())
        &&& self.sizes[0] == line_size(self.tr(), 0)
        &&& self.sizes[1] == line_size(self.tr(), 1)
        &&& self.sizes[2] == line_size(self.tr(), 2)
        &&& self.cache@.len() == table_size(self.tr())
        &&& self.powers@.len() == self.tr()[0] + self.tr()[1] + self.tr()[2] + 1
        &&& forall|j: int|
            0 <= j < self.powers@.len() ==> (#[trigger] self.powers@[j])@ == pow(20, j as nat)
    }

    /// The slot of state `s` holds exactly the value `s` is owed.
    pub(crate) open spec fn cell_ok(self, s: Stone) -> bool {
        self.cache@[cell_index(s, self.tr())]@ == objective_value(
            self.mode,
            s,
            self.tl(),
            self.tr(),
        )
    }

    /// Every reachable state that has consumed at least `k` trials in total
    /// already has a correct slot.
    pub(crate) open spec fn filled_above(self, k: int) -> bool {
        forall|s: Stone|
            wf_state(s, self.tr()) && s.total_rolls() >= k ==> #[trigger] self.cell_ok(s)
    }
}

/// Three given attempt counts, one per line.
pub(crate) open spec fn same_rolls(s: Stone, q0: u8, q1: u8, q2: u8) -> bool {
    s.roll0 == q0 && s.roll1 == q1 && s.roll2 == q2
}

/// Everything but the table contents is unchanged.
pub(crate) open spec fn same_config(a: Expectimax, b: Expectimax) -> bool {
    &&& b.mode == a.mode
    &&& b.lines == a.lines
    &&& b.rolls == a.rolls
    &&& b.sizes == a.sizes
    &&& b.powers == a.powers
    &&& b.cache@.len() == a.cache@.len()
}

/// Multiplying a value that fits its scale by one trial's weight keeps it
/// under the next scale, which stays below 2^192.
proof fn lemma_weighted_fits(v: nat, wgt: nat, m: nat)
    requires
        v <= pow(20, m),
        wgt <= 20,
        m < 44,
    ensures
        v * wgt <= pow(20, (m + 1) as nat),
        pow(20, (m + 1) as nat) < u192_bound(),
{
    lemma_pow_positive(20, m);
    let p = pow(20, m);
    lemma_mul_inequality(v as int, p, wgt as int);
    lemma_mul_inequality(wgt as int, 20, p);
    lemma_mul_is_commutative(p, wgt as int);
    lemma_pow1(20);
    lemma_pow_adds(20, 1, m);
    assert(pow(20, (m + 1) as nat) == 20 * p);
    lemma_pow_increases(20, (m + 1) as nat, 44);
    lemma_pow_44_fits();
}

/// Every product and sum `select` forms stays below 2^192, and equals the
/// per-line value the chosen objective owes the state.
pub(crate) proof fn lemma_choice_fits(o: Objective, s: Stone, l: int, tl: Seq<u8>, tr: Seq<u8>)
    requires
        wf_state(s, tr),
        valid_targets(tr),
        0 <= l < 3,
        s.roll(l) < tr[l],
    ensures
        objective_value(o, s.spec_succeed(l), tl, tr) * s.chance.success_weight()
            < u192_bound(),
        objective_value(o, s.spec_fail(l), tl, tr) * s.chance.failure_weight() < u192_bound(),
        objective_value(o, s.spec_succeed(l), tl, tr) * s.chance.success_weight()
            + objective_value(o, s.spec_fail(l), tl, tr) * s.chance.failure_weight()
            < u192_bound(),
{
    let up = s.spec_succeed(l);
    let down = s.spec_fail(l);
    let w = s.chance.success_weight();
    let f = s.chance.failure_weight();
    let m = left_measure(up, tr);
    assert(up.total_rolls() == s.total_rolls() + 1);
    assert(down.total_rolls() == s.total_rolls() + 1);
    assert(m == left_measure(down, tr));
    assert(m < 44);
    let vs = objective_value(o, up, tl, tr);
    let vf = objective_value(o, down, tl, tr);
    lemma_value_bounded(up, tl, tr);
    lemma_value_bounded(down, tl, tr);
    lemma_weighted_fits(vs, w, m);
    lemma_weighted_fits(vf, f, m);
    let p = pow(20, m);
    lemma_pow_positive(20, m);
    lemma_mul_inequality(vs as int, p, w as int);
    lemma_mul_inequality(vf as int, p, f as int);
    lemma_mul_is_distributive_add(p, w as int, f as int);
    lemma_mul_is_commutative(p, w as int);
    lemma_mul_is_commutative(p, f as int);
    lemma_mul_is_commutative(p, 20);
    lemma_pow1(20);
    lemma_pow_adds(20, 1, m);
    lemma_pow_increases(20, (m + 1) as nat, 44);
    lemma_pow_44_fits();
    assert(vs * w <= p * w && vf * f <= p * f);
    assert(p * w + p * f == p * 20);
}

/// Raising to a power preserves the order of positive bases.
proof fn lemma_pow_base_le(a: int, b: int, e: nat)
    requires
        1 <= a <= b,
    ensures
        pow(a, e) <= pow(b, e),
    decreases e,
{
    lemma_pow0(a);
    lemma_pow0(b);
    lemma_pow_positive(a, e);
    lemma_pow_positive(b, e);
    if e > 0 {
        let e1 = (e - 1) as nat;
        lemma_pow_base_le(a, b, e1);
        lemma_pow_positive(a, e1);
        lemma_pow_positive(b, e1);
        lemma_pow1(a);
        lemma_pow_adds(a, 1, e1);
        lemma_pow1(b);
        lemma_pow_adds(b, 1, e1);
        lemma_mul_inequality(pow(a, e1), pow(b, e1), a);
        lemma_mul_inequality(a, b, pow(b, e1));
        lemma_mul_is_commutative(a, pow(a, e1));
        lemma_mul_is_commutative(a, pow(b, e1));
        lemma_mul_is_commutative(b, pow(b, e1));
    }
}

/// The largest scale the engine can need still fits in 192 bits:
/// `20^44 == 2^88 * 5^44 <= 2^88 * 2^103 < 2^192`.
proof fn lemma_pow_44_fits()
    ensures
        pow(20, 44) < u192_bound(),
{
    lemma2_to64();
    lemma2_to64_rest();
    lemma_pow_positive(2, 5);
    lemma_pow_positive(2, 7);
    lemma_pow_positive(2, 64);
    lemma_pow1(2);
    lemma_pow1(5);
    lemma_pow_adds(2, 1, 1);
    assert(pow(2, 2) == 4);
    lemma_pow_adds(5, 1, 1);
    assert(pow(5, 2) == 25);
    lemma_pow_adds(5, 1, 2);
    assert(pow(5, 3) == 125);
    lemma_pow_distributes(4, 5, 44);
    assert(pow(20, 44) == pow(4, 44) * pow(5, 44));
    lemma_pow_multiplies(2, 2, 44);
    assert(pow(4, 44) == pow(2, 88));
    lemma_pow_adds(5, 2, 42);
    lemma_pow_multiplies(5, 3, 14);
    assert(pow(5, 44) == 25 * pow(125, 14));
    lemma_pow_base_le(125, 128, 14);
    assert(pow(2, 7) == 128);
    lemma_pow_multiplies(2, 7, 14);
    assert(pow(128, 14) == pow(2, 98));
    lemma_pow_positive(2, 98);
    lemma_mul_inequality(pow(125, 14), pow(2, 98), 25);
    lemma_mul_is_commutative(pow(125, 14), 25);
    lemma_mul_is_commutative(pow(2, 98), 25);
    lemma_mul_inequality(25, 32, pow(2, 98));
    assert(pow(2, 5) == 32);
    lemma_pow_adds(2, 5, 98);
    assert(pow(5, 44) <= pow(2, 103));
    lemma_pow_positive(2, 88);
    lemma_mul_inequality(pow(5, 44), pow(2, 103), pow(2, 88));
    lemma_mul_is_commutative(pow(5, 44), pow(2, 88));
    lemma_mul_is_commutative(pow(2, 103), pow(2, 88));
    lemma_pow_adds(2, 88, 103);
    assert(pow(20, 44) <= pow(2, 191));
    lemma_pow_strictly_increases(2, 191, 192);
    lemma_pow_adds(2, 64, 64);
    lemma_pow_adds(2, 64, 128);
    assert(pow(2, 64) == 0x10000000000000000);
    assert(pow(2, 192) == u192_bound());
}

impl Expectimax {
    /// Rank of (attempts `r`, successes `l`) within one line's layout.
    fn tri_rank(r: u8, l: u8) -> (d: usize)
        requires
            l <= r,
        ensures
            d == tri(r as int) + l,
    {
        proof {
            lemma_tri_formula(r as int);
            lemma_mul_upper_bound(r as int, 255, r as int + 1, 256);
        }
        (r as usize) * (r as usize + 1) / 2 + (l as usize)
    }

    /// Mapping from state to unique index in global ordering.
    fn index(&self, stone: &Stone) -> (i: usize)
        requires
            self.wf(),
            wf_state(*stone, self.tr()),
        ensures
            i == cell_index(*stone, self.tr()),
            i < self.cache@.len(),
    {
        let n = self.cache.len();
        proof {
            lemma_cell_index_bounds(*stone, self.tr());
            let s0 = line_size(self.tr(), 0);
            let s1 = line_size(self.tr(), 1);
            let s2 = line_size(self.tr(), 2);
            lemma_table_size_positive(self.tr());
            assert(6 * s0 <= table_size(self.tr()) && (6 * s0) * s1 <= table_size(self.tr()))
                by (nonlinear_arith)
                requires
                    s0 >= 1,
                    s1 >= 1,
                    s2 >= 1,
                    table_size(self.tr()) == 6 * s0 * s1 * s2,
            ;
            lemma_digit_bounds(stone.roll0 as int, stone.line0 as int, self.tr()[0] as int);
            lemma_digit_bounds(stone.roll1 as int, stone.line1 as int, self.tr()[1] as int);
            lemma_digit_bounds(stone.roll2 as int, stone.line2 as int, self.tr()[2] as int);
            lemma_mixed_radix_bounds(
                stone.chance.spec_ladder_index(),
                6,
                tri(stone.roll0 as int) + stone.line0,
                s0,
            );
            lemma_mixed_radix_bounds(
                stone.chance.spec_ladder_index() * s0 + tri(stone.roll0 as int) + stone.line0,
                6 * s0,
                tri(stone.roll1 as int) + stone.line1,
                s1,
            );
        }
        let c = stone.chance.ladder_index();
        let d0 = Self::tri_rank(stone.roll0, stone.line0);
        let d1 = Self::tri_rank(stone.roll1, stone.line1);
        let d2 = Self::tri_rank(stone.roll2, stone.line2);
        let a = c * self.sizes[0] + d0;
        let b = a * self.sizes[1] + d1;
        b * self.sizes[2] + d2
    }

    /// Compute the value of `stone` if `line` is chosen for the next trial,
    /// from the already-filled slots of its two successor states.
    #[verifier::rlimit(60)]
    fn select(&self, stone: &Stone, line: usize) -> (r: U192)
        requires
            self.wf(),
            wf_state(*stone, self.tr()),
            line < 3,
            self.filled_above(stone.total_rolls() + 1),
        ensures
            r@ == objective_choice(self.mode, *stone, line as int, self.tl(), self.tr()),
    {
        if stone.roll_at(line) >= self.rolls[line] {
            return U192::zero();
        }
        let up = stone.succeed(line);
        let down = stone.fail(line);
        proof {
            assert(wf_state(up, self.tr()));
            assert(wf_state(down, self.tr()));
            assert(self.cell_ok(up));
            assert(self.cell_ok(down));
            lemma_choice_fits(self.mode, *stone, line as int, self.tl(), self.tr());
        }
        let w = stone.chance.success_u64();
        let f = stone.chance.failure_u64();
        let iu = self.index(&up);
        let id = self.index(&down);
        let vs = self.cache[iu];
        let vf = self.cache[id];
        let ws = vs.mul_u64(w);
        let wf = vf.mul_u64(f);
        proof {
            assert(rolls_left(*stone, self.tr()) > 0);
        }
        match self.mode {
            Objective::Expectation => {
                let r = ws.add(wf);
                proof {
                    lemma_mul_is_commutative(
                        vs@ as int,
                        stone.chance.success_weight() as int,
                    );
                    lemma_mul_is_commutative(
                        vf@ as int,
                        stone.chance.failure_weight() as int,
                    );
                    assert(select_value(*stone, line as int, self.tl(), self.tr())
                        == stone.chance.success_weight() * stone_value(up, self.tl(), self.tr())
                        + stone.chance.failure_weight() * stone_value(down, self.tl(), self.tr()));
                }
                r
            },
            Objective::BestRun => {
                let r = ws.max(wf);
                proof {
                    lemma_mul_is_commutative(
                        vs@ as int,
                        stone.chance.success_weight() as int,
                    );
                    lemma_mul_is_commutative(
                        vf@ as int,
                        stone.chance.failure_weight() as int,
                    );
                    assert(step_value(*stone, line as int, self.tl(), self.tr()) == max2(
                        stone.chance.success_weight() * run_value(up, self.tl(), self.tr()),
                        stone.chance.failure_weight() * run_value(down, self.tl(), self.tr()),
                    ));
                }
                r
            },
        }
    }

    /// Fill the slot of one state from the slots of the states one trial
    /// deeper, or directly if the state is terminal for its objective.
    fn fill_cell(&mut self, stone: &Stone)
        requires
            old(self).wf(),
            wf_state(*stone, old(self).tr()),
            old(self).filled_above(stone.total_rolls() + 1),
        ensures
            final(self).wf(),
            same_config(*old(self), *final(self)),
            final(self).filled_above(stone.total_rolls() + 1),
            final(self).cell_ok(*stone),
            forall|t: Stone|
                wf_state(t, final(self).tr()) && t != *stone ==> final(self).cache@[cell_index(
                    t,
                    final(self).tr(),
                )] == old(self).cache@[cell_index(t, final(self).tr())],
    {
        let i = self.index(stone);
        let v: U192 = match self.mode {
            Objective::Expectation => {
                if stone.roll0 >= self.rolls[0] && stone.roll1 >= self.rolls[1] && stone.roll2
                    >= self.rolls[2] {
                    if stone.line0 >= self.lines[0] && stone.line1 >= self.lines[1] && stone.line2
                        <= self.lines[2] {
                        U192::one()
                    } else {
                        U192::zero()
                    }
                } else {
                    let a = self.select(stone, 0);
                    let b = self.select(stone, 1);
                    let c = self.select(stone, 2);
                    a.max(b).max(c)
                }
            },
            Objective::BestRun => {
                if stone.line0 >= self.lines[0] && stone.line1 >= self.lines[1] && stone.line2
                    <= self.lines[2] {
                    let budget = self.rolls[0] as u64 + self.rolls[1] as u64 + self.rolls[2] as u64;
                    let used = stone.roll0 as u64 + stone.roll1 as u64 + stone.roll2 as u64;
                    let left = (budget - used) as usize;
                    self.powers[left]
                } else {
                    let a = self.select(stone, 0);
                    let b = self.select(stone, 1);
                    let c = self.select(stone, 2);
                    a.max(b).max(c)
                }
            },
        };
        proof {
            assert(v@ == objective_value(self.mode, *stone, self.tl(), self.tr()));
        }
        self.cache[i] = v;
        proof {
            assert forall|t: Stone| wf_state(t, self.tr()) && t != *stone implies self.cache@[
                cell_index(t, self.tr())] == old(self).cache@[cell_index(t, self.tr())] by {
                lemma_cell_index_bounds(t, self.tr());
                if cell_index(t, self.tr()) == cell_index(*stone, self.tr()) {
                    lemma_cell_index_injective(t, *stone, self.tr());
                }
            }
            assert forall|s2: Stone|
                wf_state(s2, self.tr()) && s2.total_rolls() >= stone.total_rolls()
                    + 1 implies self.cell_ok(s2) by {
                assert(old(self).cell_ok(s2));
                lemma_cell_index_bounds(s2, self.tr());
                if cell_index(s2, self.tr()) == cell_index(*stone, self.tr()) {
                    lemma_cell_index_injective(s2, *stone, self.tr());
                }
            }
        }
    }

    /// Fill the slots of every state with the given attempts, ladder level
    /// and fixed successes on lines 1 and 2, for each success count on
    /// line 0.
    fn fill_line0(&mut self, chance: Chance, l1: u8, l2: u8, q0: u8, q1: u8, q2: u8)
        requires
            old(self).wf(),
            q0 <= old(self).tr()[0],
            q1 <= old(self).tr()[1],
            q2 <= old(self).tr()[2],
            l1 <= q1,
            l2 <= q2,
            old(self).filled_above(q0 + q1 + q2 + 1),
        ensures
            final(self).wf(),
            same_config(*old(self), *final(self)),
            final(self).filled_above(q0 + q1 + q2 + 1),
            forall|s: Stone|
                wf_state(s, final(self).tr()) && same_rolls(s, q0, q1, q2) && s.chance == chance
                    && s.line1 == l1 && s.line2 == l2 ==> #[trigger] final(self).cell_ok(s),
            forall|t: Stone|
                wf_state(t, final(self).tr()) && !(same_rolls(t, q0, q1, q2) && t.chance == chance
                    && t.line1 == l1 && t.line2 == l2) ==> final(self).cache@[#[trigger] cell_index(
                    t,
                    final(self).tr(),
                )] == old(self).cache@[cell_index(t, final(self).tr())],
    {
        let mut l0: u8 = 0;
        while l0 <= q0
            invariant
                self.wf(),
                same_config(*old(self), *self),
                q0 <= self.tr()[0],
                q1 <= self.tr()[1],
                q2 <= self.tr()[2],
                l1 <= q1,
                l2 <= q2,
                l0 <= q0 + 1,
                self.filled_above(q0 + q1 + q2 + 1),
                forall|s: Stone|
                    wf_state(s, self.tr()) && same_rolls(s, q0, q1, q2) && s.chance == chance
                        && s.line1 == l1 && s.line2 == l2 && s.line0 < l0
                        ==> #[trigger] self.cell_ok(s),
                forall|t: Stone|
                    wf_state(t, self.tr()) && !(same_rolls(t, q0, q1, q2) && t.chance == chance
                        && t.line1 == l1 && t.line2 == l2) ==> self.cache@[#[trigger] cell_index(
                        t,
                        self.tr(),
                    )] == old(self).cache@[cell_index(t, self.tr())],
            decreases q0 + 1 - l0,
        {
            let stone = Stone {
                chance,
                line0: l0,
                line1: l1,
                line2: l2,
                roll0: q0,
                roll1: q1,
                roll2: q2,
            };
            let ghost pre = *self;
            proof {
                assert(wf_state(stone, self.tr()));
                assert(stone.total_rolls() == q0 + q1 + q2);
            }
            self.fill_cell(&stone);
            proof {
                assert forall|s: Stone|
                    wf_state(s, self.tr()) && same_rolls(s, q0, q1, q2) && s.chance == chance
                        && s.line1 == l1 && s.line2 == l2 && s.line0 < l0
                        + 1 implies #[trigger] self.cell_ok(s) by {
                    if s.line0 == l0 {
                        assert(s == stone);
                    } else {
                        assert(s != stone);
                        assert(pre.cell_ok(s));
                    }
                }
                assert forall|t: Stone|
                    wf_state(t, self.tr()) && !(same_rolls(t, q0, q1, q2) && t.chance == chance
                        && t.line1 == l1 && t.line2 == l2) implies self.cache@[#[trigger] cell_index(
                    t,
                    self.tr(),
                )] == old(self).cache@[cell_index(t, self.tr())] by {
                    assert(t != stone);
                }
            }
            l0 = l0 + 1;
        }
    }

    /// Fill the slots of every state with the given attempts and ladder
    /// level, for every pair of success counts on lines 0 and 1.
    fn fill_line1(&mut self, chance: Chance, l2: u8, q0: u8, q1: u8, q2: u8)
        requires
            old(self).wf(),
            q0 <= old(self).tr()[0],
            q1 <= old(self).tr()[1],
            q2 <= old(self).tr()[2],
            l2 <= q2,
            old(self).filled_above(q0 + q1 + q2 + 1),
        ensures
            final(self).wf(),
            same_config(*old(self), *final(self)),
            final(self).filled_above(q0 + q1 + q2 + 1),
            forall|s: Stone|
                wf_state(s, final(self).tr()) && same_rolls(s, q0, q1, q2) && s.chance == chance
                    && s.line2 == l2 ==> #[trigger] final(self).cell_ok(s),
            forall|t: Stone|
                wf_state(t, final(self).tr()) && !(same_rolls(t, q0, q1, q2) && t.chance == chance
                    && t.line2 == l2) ==> final(self).cache@[#[trigger] cell_index(
                    t,
                    final(self).tr(),
                )] == old(self).cache@[cell_index(t, final(self).tr())],
    {
        let mut l1: u8 = 0;
        while l1 <= q1
            invariant
                self.wf(),
                same_config(*old(self), *self),
                q0 <= self.tr()[0],
                q1 <= self.tr()[1],
                q2 <= self.tr()[2],
                l2 <= q2,
                l1 <= q1 + 1,
                self.filled_above(q0 + q1 + q2 + 1),
                forall|s: Stone|
                    wf_state(s, self.tr()) && same_rolls(s, q0, q1, q2) && s.chance == chance
                        && s.line2 == l2 && s.line1 < l1 ==> #[trigger] self.cell_ok(s),
                forall|t: Stone|
                    wf_state(t, self.tr()) && !(same_rolls(t, q0, q1, q2) && t.chance == chance
                        && t.line2 == l2) ==> self.cache@[#[trigger] cell_index(t, self.tr())]
                        == old(self).cache@[cell_index(t, self.tr())],
            decreases q1 + 1 - l1,
        {
            let ghost pre = *self;
            self.fill_line0(chance, l1, l2, q0, q1, q2);
            proof {
                assert forall|s: Stone|
                    wf_state(s, self.tr()) && same_rolls(s, q0, q1, q2) && s.chance == chance
                        && s.line2 == l2 && s.line1 < l1 + 1 implies #[trigger] self.cell_ok(
                    s,
                ) by {
                    if s.line1 < l1 {
                        assert(pre.cell_ok(s));
                    }
                }
            }
            l1 = l1 + 1;
        }
    }

    /// Fill the slots of every state with the given attempts and ladder
    /// level, for every combination of success counts.
    fn fill_lines(&mut self, chance: Chance, q0: u8, q1: u8, q2: u8)
        requires
            old(self).wf(),
            q0 <= old(self).tr()[0],
            q1 <= old(self).tr()[1],
            q2 <= old(self).tr()[2],
            old(self).filled_above(q0 + q1 + q2 + 1),
        ensures
            final(self).wf(),
            same_config(*old(self), *final(self)),
            final(self).filled_above(q0 + q1 + q2 + 1),
            forall|s: Stone|
                wf_state(s, final(self).tr()) && same_rolls(s, q0, q1, q2) && s.chance == chance
                    ==> #[trigger] final(self).cell_ok(s),
            forall|t: Stone|
                wf_state(t, final(self).tr()) && !(same_rolls(t, q0, q1, q2) && t.chance == chance)
                    ==> final(self).cache@[#[trigger] cell_index(t, final(self).tr())] == old(self).cache@[cell_index(t, final(self).tr())],
    {
        let mut l2: u8 = 0;
        while l2 <= q2
            invariant
                self.wf(),
                same_config(*old(self), *self),
                q0 <= self.tr()[0],
                q1 <= self.tr()[1],
                q2 <= self.tr()[2],
                l2 <= q2 + 1,
                self.filled_above(q0 + q1 + q2 + 1),
                forall|s: Stone|
                    wf_state(s, self.tr()) && same_rolls(s, q0, q1, q2) && s.chance == chance
                        && s.line2 < l2 ==> #[trigger] self.cell_ok(s),
                forall|t: Stone|
                    wf_state(t, self.tr()) && !(same_rolls(t, q0, q1, q2) && t.chance == chance)
                        ==> self.cache@[#[trigger] cell_index(t, self.tr())] == old(self).cache@[cell_index(t, self.tr())],
            decreases q2 + 1 - l2,
        {
            let ghost pre = *self;
            self.fill_line1(chance, l2, q0, q1, q2);
            proof {
                assert forall|s: Stone|
                    wf_state(s, self.tr()) && same_rolls(s, q0, q1, q2) && s.chance == chance
                        && s.line2 < l2 + 1 implies #[trigger] self.cell_ok(s) by {
                    if s.line2 < l2 {
                        assert(pre.cell_ok(s));
                    }
                }
            }
            l2 = l2 + 1;
        }
    }

    /// Fill the slots of every state with the given attempts, over all six
    /// ladder levels and all success counts.
    fn fill_rolls(&mut self, q0: u8, q1: u8, q2: u8)
        requires
            old(self).wf(),
            q0 <= old(self).tr()[0],
            q1 <= old(self).tr()[1],
            q2 <= old(self).tr()[2],
            old(self).filled_above(q0 + q1 + q2 + 1),
        ensures
            final(self).wf(),
            same_config(*old(self), *final(self)),
            final(self).filled_above(q0 + q1 + q2 + 1),
            forall|s: Stone|
                wf_state(s, final(self).tr()) && same_rolls(s, q0, q1, q2)
                    ==> #[trigger] final(self).cell_ok(s),
            forall|t: Stone|
                wf_state(t, final(self).tr()) && !same_rolls(t, q0, q1, q2) ==> final(self).cache@[#[trigger] cell_index(t, final(self).tr())] == old(self).cache@[cell_index(
                    t,
                    final(self).tr(),
                )],
    {
        let mut ci: usize = 0;
        while ci < 6
            invariant
                self.wf(),
                same_config(*old(self), *self),
                q0 <= self.tr()[0],
                q1 <= self.tr()[1],
                q2 <= self.tr()[2],
                ci <= 6,
                self.filled_above(q0 + q1 + q2 + 1),
                forall|s: Stone|
                    wf_state(s, self.tr()) && same_rolls(s, q0, q1, q2)
                        && s.chance.spec_ladder_index() < ci ==> #[trigger] self.cell_ok(s),
                forall|t: Stone|
                    wf_state(t, self.tr()) && !same_rolls(t, q0, q1, q2)
                        ==> self.cache@[#[trigger] cell_index(t, self.tr())] == old(self).cache@[cell_index(t, self.tr())],
            decreases 6 - ci,
        {
            let chance = Chance::from_ladder_index(ci);
            let ghost pre = *self;
            self.fill_lines(chance, q0, q1, q2);
            proof {
                assert forall|s: Stone|
                    wf_state(s, self.tr()) && same_rolls(s, q0, q1, q2)
                        && s.chance.spec_ladder_index() < ci + 1 implies #[trigger] self.cell_ok(
                    s,
                ) by {
                    if s.chance.spec_ladder_index() < ci {
                        assert(s.chance != chance);
                        assert(pre.cell_ok(s));
                    } else {
                        assert(s.chance == chance);
                    }
                }
            }
            ci = ci + 1;
        }
    }

    /// Fill the terminal layer directly by enumeration: every state whose
    /// three lines have consumed their full budgets.
    fn compute_terminal(&mut self)
        requires
            old(self).wf(),
        ensures
            final(self).wf(),
            same_config(*old(self), *final(self)),
            final(self).filled_above(budget_total(final(self).tr())),
    {
        let q0 = self.rolls[0];
        let q1 = self.rolls[1];
        let q2 = self.rolls[2];
        proof {
            assert forall|s: Stone|
                wf_state(s, self.tr()) && s.total_rolls() >= q0 + q1 + q2
                    + 1 implies #[trigger] self.cell_ok(s) by {
                assert(false);
            }
        }
        self.fill_rolls(q0, q1, q2);
        proof {
            assert forall|s: Stone|
                wf_state(s, self.tr()) && s.total_rolls() >= budget_total(
                    self.tr(),
                ) implies #[trigger] self.cell_ok(s) by {
                assert(same_rolls(s, q0, q1, q2));
            }
        }
    }

    /// Fill one shell: every state that has consumed exactly `k` trials in
    /// total, in any split over the three lines.
    fn fill_shell(&mut self, k: u8)
        requires
            old(self).wf(),
            k < budget_total(old(self).tr()),
            old(self).filled_above(k + 1),
        ensures
            final(self).wf(),
            same_config(*old(self), *final(self)),
            final(self).filled_above(k as int),
    {
        let t0 = self.rolls[0];
        let t1 = self.rolls[1];
        let t2 = self.rolls[2];
        let min3: u8 = if k > t0 + t1 {
            k - t0 - t1
        } else {
            0
        };
        let max3: u8 = if k < t2 {
            k
        } else {
            t2
        };
        let mut r3 = min3;
        while r3 <= max3
            invariant
                self.wf(),
                same_config(*old(self), *self),
                t0 == self.tr()[0],
                t1 == self.tr()[1],
                t2 == self.tr()[2],
                k < budget_total(self.tr()),
                min3 == if k > t0 + t1 { k - t0 - t1 } else { 0 },
                max3 == if k < t2 { k } else { t2 },
                min3 <= r3,
                r3 <= max3 + 1,
                self.filled_above(k + 1),
                forall|s: Stone|
                    wf_state(s, self.tr()) && s.total_rolls() == k && s.roll2 < r3
                        ==> #[trigger] self.cell_ok(s),
            decreases max3 + 1 - r3,
        {
            let rem = k - r3;
            let min2: u8 = if rem > t0 {
                rem - t0
            } else {
                0
            };
            let max2: u8 = if rem < t1 {
                rem
            } else {
                t1
            };
            let mut r2 = min2;
            while r2 <= max2
                invariant
                    self.wf(),
                    same_config(*old(self), *self),
                    t0 == self.tr()[0],
                    t1 == self.tr()[1],
                    t2 == self.tr()[2],
                    k < budget_total(self.tr()),
                    r3 <= max3,
                    max3 == if k < t2 { k } else { t2 },
                    rem == k - r3,
                    min2 == if rem > t0 { rem - t0 } else { 0 },
                    max2 == if rem < t1 { rem } else { t1 },
                    min2 <= r2,
                    r2 <= max2 + 1,
                    self.filled_above(k + 1),
                    forall|s: Stone|
                        wf_state(s, self.tr()) && s.total_rolls() == k && s.roll2 < r3
                            ==> #[trigger] self.cell_ok(s),
                    forall|s: Stone|
                        wf_state(s, self.tr()) && s.total_rolls() == k && s.roll2 == r3
                            && s.roll1 < r2 ==> #[trigger] self.cell_ok(s),
                decreases max2 + 1 - r2,
            {
                let r1 = rem - r2;
                let ghost pre = *self;
                self.fill_rolls(r1, r2, r3);
                proof {
                    assert forall|s: Stone|
                        wf_state(s, self.tr()) && s.total_rolls() == k && s.roll2 == r3
                            && s.roll1 < r2 + 1 implies #[trigger] self.cell_ok(s) by {
                        if s.roll1 == r2 {
                            assert(same_rolls(s, r1, r2, r3));
                        } else {
                            assert(!same_rolls(s, r1, r2, r3));
                            assert(pre.cell_ok(s));
                        }
                    }
                    assert forall|s: Stone|
                        wf_state(s, self.tr()) && s.total_rolls() == k && s.roll2
                            < r3 implies #[trigger] self.cell_ok(s) by {
                        assert(!same_rolls(s, r1, r2, r3));
                        assert(pre.cell_ok(s));
                    }
                }
                r2 = r2 + 1;
            }
            proof {
                assert forall|s: Stone|
                    wf_state(s, self.tr()) && s.total_rolls() == k && s.roll2 < r3
                        + 1 implies #[trigger] self.cell_ok(s) by {
                    if s.roll2 == r3 {
                        assert(s.roll1 < r2);
                    }
                }
            }
            r3 = r3 + 1;
        }
        proof {
            assert forall|s: Stone|
                wf_state(s, self.tr()) && s.total_rolls() >= k implies #[trigger] self.cell_ok(
                s,
            ) by {
                if s.total_rolls() == k {
                    assert(s.roll2 < r3);
                }
            }
        }
    }

    /// Fill every shell below the terminal layer, by decreasing total
    /// trials consumed, so that each cell's dependencies are already
    /// resolved when it is computed.
    fn compute_all(&mut self)
        requires
            old(self).wf(),
            old(self).filled_above(budget_total(old(self).tr())),
        ensures
            final(self).wf(),
            same_config(*old(self), *final(self)),
            final(self).filled_above(0),
    {
        let mut k = self.rolls[0] + self.rolls[1] + self.rolls[2];
        while k > 0
            invariant
                self.wf(),
                same_config(*old(self), *self),
                k <= budget_total(self.tr()),
                self.filled_above(k as int),
            decreases k,
        {
            k = k - 1;
            self.fill_shell(k);
        }
    }

    /// Read the filled table at one state.
    pub(crate) fn value_at(&self, stone: &Stone) -> (r: U192)
        requires
            self.wf(),
            wf_state(*stone, self.tr()),
            self.filled_above(0),
        ensures
            r@ == objective_value(self.mode, *stone, self.tl(), self.tr()),
    {
        proof {
            assert(self.cell_ok(*stone));
        }
        let i = self.index(stone);
        self.cache[i]
    }

    /// Slots one line with budget `b` needs: one per (attempts, successes)
    /// pair with successes <= attempts <= b.
    fn line_slots(b: u8) -> (n: usize)
        ensures
            n == tri(b as int + 1),
    {
        proof {
            lemma_tri_formula(b as int + 1);
            lemma_mul_upper_bound(b as int + 1, 256, b as int + 2, 257);
        }
        ((b as usize) + 1) * ((b as usize) + 2) / 2
    }

    /// Construct the table for the given objective, target successes and
    /// trial budgets, fill the terminal layer, then every shell below it.
    pub(crate) fn new(mode: Objective, lines: [u8; 3], rolls: [u8; 3]) -> (e: Expectimax)
        requires
            valid_targets(rolls@),
            table_size(rolls@) <= usize::MAX,
        ensures
            e.wf(),
            e.mode == mode,
            e.lines == lines,
            e.rolls == rolls,
            e.filled_above(0),
    {
        let sz0 = Self::line_slots(rolls[0]);
        let sz1 = Self::line_slots(rolls[1]);
        let sz2 = Self::line_slots(rolls[2]);
        proof {
            lemma_tri_formula(45);
            lemma_tri_monotone(rolls@[0] + 1, 45);
            lemma_tri_monotone(rolls@[1] + 1, 45);
            lemma_tri_monotone(rolls@[2] + 1, 45);
            crate::index::lemma_tri_nonneg(rolls@[0] + 1);
            crate::index::lemma_tri_nonneg(rolls@[1] + 1);
            crate::index::lemma_tri_nonneg(rolls@[2] + 1);
            lemma_mul_upper_bound(6 * sz0 as int, 6210, sz1 as int, 1035);
            lemma_mul_upper_bound(6 * sz0 as int * sz1 as int, 6427350, sz2 as int, 1035);
        }
        let total: u64 = 6u64 * (sz0 as u64) * (sz1 as u64) * (sz2 as u64);
        let n: usize = total as usize;
        let mut cache: Vec<U192> = Vec::new();
        let mut i: usize = 0;
        while i < n
            invariant
                i == cache@.len(),
                i <= n,
            decreases n - i,
        {
            cache.push(U192::max_value());
            i = i + 1;
        }
        let sum = rolls[0] + rolls[1] + rolls[2];
        let mut powers: Vec<U192> = Vec::new();
        let mut cur = U192::one();
        let mut j: u8 = 0;
        proof {
            lemma_pow0(20);
        }
        while j <= sum
            invariant
                sum <= 44,
                j <= sum + 1,
                powers@.len() == j,
                j <= sum ==> cur@ == pow(20, j as nat),
                forall|t: int| 0 <= t < j ==> (#[trigger] powers@[t])@ == pow(20, t as nat),
            decreases sum + 1 - j,
        {
            powers.push(cur);
            if j < sum {
                proof {
                    lemma_pow_positive(20, j as nat);
                    lemma_pow1(20);
                    lemma_pow_adds(20, 1, j as nat);
                    lemma_pow_increases(20, (j + 1) as nat, 44);
                    lemma_pow_44_fits();
                    lemma_mul_is_commutative(pow(20, j as nat), 20);
                }
                cur = cur.mul_u64(20);
            }
            j = j + 1;
        }
        let mut e = Expectimax { mode, cache, lines, rolls, sizes: [sz0, sz1, sz2], powers };
        proof {
            assert(e.sizes[0] == sz0 && e.sizes[1] == sz1 && e.sizes[2] == sz2);
            assert(e.tr() == rolls@);
            assert(e.wf());
        }
        e.compute_terminal();
        e.compute_all();
        e
    }
}


/// Compute the probability of reaching target `lines`, given limit `rolls`,
/// current state `stone`, and optimal decision-making.
///
/// Returns the numerators for each choice, and the denominator for all
/// three: `numerators[l] / denominator` is the exact probability of meeting
/// the target if line `l` is rolled first and every later choice is
/// optimal. Each numerator never exceeds the denominator, and a line whose
/// trial budget is already consumed gets numerator 0.
pub fn expectimax(stone: Stone, lines: [u8; 3], rolls: [u8; 3]) -> (r: ([U192; 3], U192))
    requires
        valid_targets(rolls@),
        wf_state(stone, rolls@),
        table_size(rolls@) <= usize::MAX,
    ensures
        r.0@[0]@ == select_value(stone, 0, lines@, rolls@),
        r.0@[1]@ == select_value(stone, 1, lines@, rolls@),
        r.0@[2]@ == select_value(stone, 2, lines@, rolls@),
        r.1@ == pow(20, left_measure(stone, rolls@)),
        r.0@[0]@ <= r.1@ && r.0@[1]@ <= r.1@ && r.0@[2]@ <= r.1@,
        stone.roll0 >= rolls@[0] ==> r.0@[0]@ == 0,
        stone.roll1 >= rolls@[1] ==> r.0@[1]@ == 0,
        stone.roll2 >= rolls@[2] ==> r.0@[2]@ == 0,
{
    let e = Expectimax::new(Objective::Expectation, lines, rolls);
    proof {
        assert(e.filled_above(stone.total_rolls() + 1));
    }
    let n0 = e.select(&stone, 0);
    let n1 = e.select(&stone, 1);
    let n2 = e.select(&stone, 2);
    let used = stone.roll0 + stone.roll1 + stone.roll2;
    let budget = rolls[0] + rolls[1] + rolls[2];
    let left = (budget - used) as usize;
    let den = e.powers[left];
    proof {
        lemma_select_bounded(stone, 0, lines@, rolls@);
        lemma_select_bounded(stone, 1, lines@, rolls@);
        lemma_select_bounded(stone, 2, lines@, rolls@);
    }
    let nums = [n0, n1, n2];
    proof {
        assert(nums@ =~= seq![n0, n1, n2]);
    }
    (nums, den)
}

} // verus!
