//! The mathematical model of optimal-play valuation.
//!
//! Probabilities are tracked unnormalized: every value is an integer scaled
//! by 20 for each trial still available, so a state whose remaining budget
//! is `k` carries values in `0 ..= 20^k` and the exact probability is the
//! value divided by `20^k`.
//!
//! `stone_value` is the optimal-play success probability of a state:
//! backward induction maximizing, at each step, the weighted value of the
//! two outcomes of the chosen line. `run_value` is the other objective over
//! the same state space: the probability of the single most probable run of
//! outcomes that reaches the target.

use crate::stone::Stone;
use vstd::arithmetic::mul::{
    lemma_mul_inequality, lemma_mul_is_associative, lemma_mul_is_commutative,
    lemma_mul_is_distributive_add, lemma_mul_is_distributive_add_other_way,
    lemma_mul_left_inequality,
};
use vstd::arithmetic::power::{lemma_pow1, lemma_pow_adds, lemma_pow_positive, pow};
use vstd::prelude::*;

verus! {

/// The whole trial budget: the sum of the three per-line budgets.
pub open spec fn budget_total(tr: Seq<u8>) -> int {
    tr[0] + tr[1] + tr[2]
}

/// Trials still available over all three lines: the per-line budgets in
/// `tr` minus the attempts the state has already consumed.
pub open spec fn rolls_left(s: Stone, tr: Seq<u8>) -> int {
    budget_total(tr) - s.total_rolls()
}

/// `rolls_left`, clamped at zero so it can order the recursion.
pub open spec fn left_measure(s: Stone, tr: Seq<u8>) -> nat {
    if rolls_left(s, tr) > 0 {
        rolls_left(s, tr) as nat
    } else {
        0
    }
}

/// The target predicate: at least the required successes on lines 0 and 1,
/// and at most the allowed successes on line 2.
pub open spec fn meets_target(s: Stone, tl: Seq<u8>) -> bool {
    s.line0 >= tl[0] && s.line1 >= tl[1] && s.line2 <= tl[2]
}

/// Every line has consumed its full trial budget.
pub open spec fn is_terminal(s: Stone, tr: Seq<u8>) -> bool {
    s.roll0 >= tr[0] && s.roll1 >= tr[1] && s.roll2 >= tr[2]
}

/// A state that can arise while faceting toward budgets `tr`: per line,
/// successes never exceed attempts, and attempts never exceed the budget.
pub open spec fn wf_state(s: Stone, tr: Seq<u8>) -> bool {
    &&& tr.len() == 3
    &&& s.line0 <= s.roll0 <= tr[0]
    &&& s.line1 <= s.roll1 <= tr[1]
    &&& s.line2 <= s.roll2 <= tr[2]
}

/// Budgets the engine accepts: three lines whose total stays within the 44
/// trials that keep every scaled value below 2^192.
pub open spec fn valid_targets(tr: Seq<u8>) -> bool {
    &&& tr.len() == 3
    &&& tr[0] + tr[1] + tr[2] <= 44
}

pub open spec fn max3(a: nat, b: nat, c: nat) -> nat {
    if a >= b && a >= c {
        a
    } else if b >= c {
        b
    } else {
        c
    }
}

pub open spec fn max2(a: nat, b: nat) -> nat {
    if a >= b {
        a
    } else {
        b
    }
}

/// Optimal-play success probability of state `s` against target lines `tl`
/// and budgets `tr`, scaled by `20^rolls_left(s, tr)`.
///
/// A terminal state is worth exactly 1 or 0 by the target predicate; any
/// other state is worth the best of the three candidate lines.
pub open spec fn stone_value(s: Stone, tl: Seq<u8>, tr: Seq<u8>) -> nat
    decreases left_measure(s, tr), 1int,
{
    if is_terminal(s, tr) {
        if meets_target(s, tl) {
            1
        } else {
            0
        }
    } else {
        max3(
            select_value(s, 0, tl, tr),
            select_value(s, 1, tl, tr),
            select_value(s, 2, tl, tr),
        )
    }
}

/// Value of state `s` when line `l` is chosen for the next trial: the
/// success weight times the value after a success plus the failure weight
/// times the value after a failure. A line whose budget is exhausted
/// contributes 0.
pub open spec fn select_value(s: Stone, l: int, tl: Seq<u8>, tr: Seq<u8>) -> nat
    decreases left_measure(s, tr), 0int,
{
    if l < 0 || l >= 3 || rolls_left(s, tr) <= 0 || s.roll(l) >= tr[l] {
        0
    } else {
        s.chance.success_weight() * stone_value(s.spec_succeed(l), tl, tr)
            + s.chance.failure_weight() * stone_value(s.spec_fail(l), tl, tr)
    }
}

/// Probability of the single most probable run of outcomes from `s` to a
/// state meeting the target, scaled by `20^rolls_left(s, tr)`.
///
/// A state already meeting the target is worth the full scale (the run
/// stops there); otherwise the best single outcome over all lines is taken,
/// so each step picks a line and one of its two outcomes.
pub open spec fn run_value(s: Stone, tl: Seq<u8>, tr: Seq<u8>) -> nat
    decreases left_measure(s, tr), 1int,
{
    if meets_target(s, tl) {
        pow(20, left_measure(s, tr)) as nat
    } else {
        max3(step_value(s, 0, tl, tr), step_value(s, 1, tl, tr), step_value(s, 2, tl, tr))
    }
}

/// Best single-outcome value of choosing line `l` from state `s`: the
/// larger of succeeding (weighted by the success weight) and failing
/// (weighted by the failure weight). A line whose budget is exhausted
/// contributes 0.
pub open spec fn step_value(s: Stone, l: int, tl: Seq<u8>, tr: Seq<u8>) -> nat
    decreases left_measure(s, tr), 0int,
{
    if l < 0 || l >= 3 || rolls_left(s, tr) <= 0 || s.roll(l) >= tr[l] {
        0
    } else {
        max2(
            s.chance.success_weight() * run_value(s.spec_succeed(l), tl, tr),
            s.chance.failure_weight() * run_value(s.spec_fail(l), tl, tr),
        )
    }
}

/// A terminal state evaluates to exactly 1 or exactly 0 by the target
/// predicate, never a fraction of the scale.
pub proof fn lemma_terminal_value(s: Stone, tl: Seq<u8>, tr: Seq<u8>)
    requires
        is_terminal(s, tr),
    ensures
        stone_value(s, tl, tr) == if meets_target(s, tl) {
            1nat
        } else {
            0nat
        },
{
}

/// No value exceeds its scale: the success probability of any state, under
/// either objective and for any line choice, is at most 1.
pub proof fn lemma_value_bounded(s: Stone, tl: Seq<u8>, tr: Seq<u8>)
    ensures
        stone_value(s, tl, tr) <= pow(20, left_measure(s, tr)),
        run_value(s, tl, tr) <= pow(20, left_measure(s, tr)),
    decreases left_measure(s, tr), 1int,
{
    lemma_pow_positive(20, left_measure(s, tr));
    if !is_terminal(s, tr) || !meets_target(s, tl) {
        lemma_select_bounded(s, 0, tl, tr);
        lemma_select_bounded(s, 1, tl, tr);
        lemma_select_bounded(s, 2, tl, tr);
    }
}

/// Bound for a single line choice, shared by both objectives.
pub proof fn lemma_select_bounded(s: Stone, l: int, tl: Seq<u8>, tr: Seq<u8>)
    ensures
        select_value(s, l, tl, tr) <= pow(20, left_measure(s, tr)),
        step_value(s, l, tl, tr) <= pow(20, left_measure(s, tr)),
    decreases left_measure(s, tr), 0int,
{
    lemma_pow_positive(20, left_measure(s, tr));
    if !(l < 0 || l >= 3 || rolls_left(s, tr) <= 0 || s.roll(l) >= tr[l]) {
        let up = s.spec_succeed(l);
        let down = s.spec_fail(l);
        let w = s.chance.success_weight();
        let f = s.chance.failure_weight();
        let sub = pow(20, left_measure(up, tr)) as nat;
        lemma_value_bounded(up, tl, tr);
        lemma_value_bounded(down, tl, tr);
        assert(left_measure(up, tr) == left_measure(s, tr) - 1);
        assert(left_measure(down, tr) == left_measure(s, tr) - 1);
        lemma_mul_inequality(stone_value(up, tl, tr) as int, sub as int, w as int);
        lemma_mul_is_commutative(stone_value(up, tl, tr) as int, w as int);
        lemma_mul_inequality(stone_value(down, tl, tr) as int, sub as int, f as int);
        lemma_mul_is_commutative(stone_value(down, tl, tr) as int, f as int);
        lemma_mul_inequality(run_value(up, tl, tr) as int, sub as int, w as int);
        lemma_mul_is_commutative(run_value(up, tl, tr) as int, w as int);
        lemma_mul_inequality(run_value(down, tl, tr) as int, sub as int, f as int);
        lemma_mul_is_commutative(run_value(down, tl, tr) as int, f as int);
        lemma_mul_is_distributive_add_other_way(sub as int, w as int, f as int);
        assert(w * sub + f * sub == 20 * sub);
        lemma_pow1(20);
        lemma_pow_adds(20, 1, left_measure(up, tr));
        assert(20 * sub == pow(20, left_measure(s, tr)));
    }
}


/// Scaling by 20 commutes with a weighted pair: `w*(20a) + f*(20b)` is
/// `20*(w*a + f*b)`.
proof fn lemma_scale_weighted_pair(w: int, f: int, a: int, b: int)
    ensures
        w * (20 * a) + f * (20 * b) == 20 * (w * a + f * b),
{
    lemma_mul_is_associative(w, 20, a);
    lemma_mul_is_commutative(w, 20);
    lemma_mul_is_associative(20, w, a);
    lemma_mul_is_associative(f, 20, b);
    lemma_mul_is_commutative(f, 20);
    lemma_mul_is_associative(20, f, b);
    lemma_mul_is_distributive_add(20, w * a, f * b);
}

/// More chances on a required line cannot reduce the best achievable
/// probability: raising the trial budget of line 0 or line 1 by one
/// multiplies the scale by 20 and the value by at least 20, so the implied
/// probability of every state and of every first-line choice never drops.
///
/// The capped line is different: a forced extra trial on line 2 can
/// overshoot its allowed maximum, so the claim is made for the two
/// required lines only.
pub proof fn lemma_budget_monotone(s: Stone, tl: Seq<u8>, tr: Seq<u8>, tr2: Seq<u8>, line: int)
    requires
        tl.len() == 3,
        tr.len() == 3,
        tr2.len() == 3,
        0 <= line < 2,
        tr2[line] == tr[line] + 1,
        forall|j: int| 0 <= j < 3 && j != line ==> tr2[j] == tr[j],
        wf_state(s, tr),
    ensures
        stone_value(s, tl, tr2) >= 20 * stone_value(s, tl, tr),
        forall|j: int|
            0 <= j < 3 ==> select_value(s, j, tl, tr2) >= 20 * #[trigger] select_value(
                s,
                j,
                tl,
                tr,
            ),
    decreases left_measure(s, tr),
{
    if is_terminal(s, tr) {
        assert(rolls_left(s, tr) == 0);
        assert forall|j: int| 0 <= j < 3 implies select_value(s, j, tl, tr2) >= 20
            * #[trigger] select_value(s, j, tl, tr) by {
            assert(select_value(s, j, tl, tr) == 0);
        }
        if meets_target(s, tl) {
            let up = s.spec_succeed(line);
            let down = s.spec_fail(line);
            assert(is_terminal(up, tr2));
            assert(is_terminal(down, tr2));
            assert(meets_target(up, tl));
            assert(meets_target(down, tl));
            assert(stone_value(up, tl, tr2) == 1);
            assert(stone_value(down, tl, tr2) == 1);
            assert(rolls_left(s, tr2) == 1);
            assert(select_value(s, line, tl, tr2) == s.chance.success_weight() * 1
                + s.chance.failure_weight() * 1);
            assert(select_value(s, line, tl, tr2) == 20);
            assert(!is_terminal(s, tr2));
            assert(stone_value(s, tl, tr2) >= select_value(s, line, tl, tr2));
        } else {
            assert(stone_value(s, tl, tr) == 0);
        }
    } else {
        assert(!is_terminal(s, tr2));
        assert forall|j: int| 0 <= j < 3 implies select_value(s, j, tl, tr2) >= 20
            * #[trigger] select_value(s, j, tl, tr) by {
            if s.roll(j) >= tr[j] || rolls_left(s, tr) <= 0 {
                assert(select_value(s, j, tl, tr) == 0);
            } else {
                let up = s.spec_succeed(j);
                let down = s.spec_fail(j);
                let w = s.chance.success_weight() as int;
                let f = s.chance.failure_weight() as int;
                assert(wf_state(up, tr));
                assert(wf_state(down, tr));
                assert(left_measure(up, tr) == left_measure(s, tr) - 1);
                lemma_budget_monotone(up, tl, tr, tr2, line);
                lemma_budget_monotone(down, tl, tr, tr2, line);
                let au = stone_value(up, tl, tr) as int;
                let ad = stone_value(down, tl, tr) as int;
                lemma_mul_left_inequality(w, 20 * au, stone_value(up, tl, tr2) as int);
                lemma_mul_left_inequality(f, 20 * ad, stone_value(down, tl, tr2) as int);
                lemma_scale_weighted_pair(w, f, au, ad);
                assert(rolls_left(s, tr2) > 0);
                assert(select_value(s, j, tl, tr2) == w * stone_value(up, tl, tr2) + f
                    * stone_value(down, tl, tr2));
                assert(select_value(s, j, tl, tr) == w * au + f * ad);
            }
        }
        assert(stone_value(s, tl, tr) == max3(
            select_value(s, 0, tl, tr),
            select_value(s, 1, tl, tr),
            select_value(s, 2, tl, tr),
        ));
        assert(stone_value(s, tl, tr2) == max3(
            select_value(s, 0, tl, tr2),
            select_value(s, 1, tl, tr2),
            select_value(s, 2, tl, tr2),
        ));
    }
}

} // verus!
