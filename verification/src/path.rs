//! Recovering the single most probable run of outcomes.
//!
//! The engine's table under the best-run objective gives every state the
//! probability of the best trajectory from it to the target. The most
//! probable trajectory itself is then read off forward from the start: at
//! each state not yet meeting the target, some line and outcome must attain
//! the state's tabled value, and stepping to it keeps the invariant that
//! the weight collected so far times the current state's value equals the
//! start state's value.

use crate::engine::{lemma_choice_fits, Expectimax, Objective};
use crate::stone::Stone;
use crate::u192::{lemma_u192_canonical, U192};
use crate::index::table_size;
use crate::valuation::{
    left_measure, max2, max3, meets_target, rolls_left, run_value, step_value, valid_targets,
    wf_state,
};
use vstd::arithmetic::mul::{lemma_mul_is_associative, lemma_mul_is_commutative};
use vstd::arithmetic::power::pow;
use vstd::prelude::*;

verus! {

/// `b` is one roll away from `a`: some line still under its budget was
/// chosen, and `b` is the outcome of succeeding or failing it.
pub open spec fn is_transition(a: Stone, b: Stone, tr: Seq<u8>) -> bool {
    exists|l: int|
        0 <= l < 3 && a.roll(l) < tr[l] && (b == a.spec_succeed(l) || b == a.spec_fail(l))
}

/// Every adjacent pair of the sequence is a valid transition.
pub open spec fn valid_path(p: Seq<Stone>, tr: Seq<u8>) -> bool {
    forall|i: int| #![trigger p[i]] 0 <= i < p.len() - 1 ==> is_transition(p[i], p[i + 1], tr)
}

/// The weight of the outcome that moved `a` to `b`: the success weight of
/// `a`'s ladder level if a line's success count grew, else its failure
/// weight. A success and a failure from the same state always differ, so
/// the distinction is well defined.
pub open spec fn step_weight(a: Stone, b: Stone) -> nat {
    if exists|l: int| 0 <= l < 3 && b == a.spec_succeed(l) {
        a.chance.success_weight()
    } else {
        a.chance.failure_weight()
    }
}

/// Product of the outcome weights along a run: its probability scaled by
/// 20 per step taken.
pub open spec fn path_weight(p: Seq<Stone>) -> nat
    decreases p.len(),
{
    if p.len() <= 1 {
        1
    } else {
        step_weight(p[0], p[1]) * path_weight(p.drop_first())
    }
}

/// Appending a state multiplies a run's weight by the last step's weight.
proof fn lemma_path_weight_snoc(p: Seq<Stone>, x: Stone)
    requires
        p.len() >= 1,
    ensures
        path_weight(p.push(x)) == path_weight(p) * step_weight(p[p.len() - 1], x),
    decreases p.len(),
{
    let q = p.push(x);
    if p.len() == 1 {
        assert(q.len() == 2);
        assert(q[0] == p[0] && q[1] == x);
        assert(q.drop_first() =~= seq![x]);
        assert(path_weight(q.drop_first()) == 1);
        assert(path_weight(q) == step_weight(q[0], q[1]) * path_weight(q.drop_first()));
        assert(path_weight(p) == 1);
    } else {
        assert(q.drop_first() =~= p.drop_first().push(x));
        lemma_path_weight_snoc(p.drop_first(), x);
        lemma_mul_is_associative(
            step_weight(p[0], p[1]) as int,
            path_weight(p.drop_first()) as int,
            step_weight(p[p.len() - 1], x) as int,
        );
    }
}

/// A state that does not meet the target but still has a positive best-run
/// value must have trials left.
proof fn lemma_positive_run_not_stuck(s: Stone, tl: Seq<u8>, tr: Seq<u8>)
    requires
        !meets_target(s, tl),
        run_value(s, tl, tr) > 0,
    ensures
        rolls_left(s, tr) > 0,
{
    if rolls_left(s, tr) <= 0 {
        assert(step_value(s, 0, tl, tr) == 0);
        assert(step_value(s, 1, tl, tr) == 0);
        assert(step_value(s, 2, tl, tr) == 0);
    }
}

/// Try one line from `cur`: if succeeding or failing it attains `cur`'s
/// tabled best-run value, return that successor.
fn try_step(e: &Expectimax, cur: &Stone, line: usize, v: &U192) -> (res: Option<Stone>)
    requires
        e.wf(),
        e.mode == Objective::BestRun,
        e.filled_above(0),
        wf_state(*cur, e.tr()),
        line < 3,
        v@ == run_value(*cur, e.tl(), e.tr()),
        v@ > 0,
    ensures
        match res {
            Some(n) => {
                &&& wf_state(n, e.tr())
                &&& is_transition(*cur, n, e.tr())
                &&& n.total_rolls() == cur.total_rolls() + 1
                &&& step_weight(*cur, n) * run_value(n, e.tl(), e.tr()) == v@
            },
            None => step_value(*cur, line as int, e.tl(), e.tr()) != v@,
        },
{
    if cur.roll_at(line) >= e.rolls[line] {
        proof {
            assert(step_value(*cur, line as int, e.tl(), e.tr()) == 0);
        }
        return None;
    }
    let up = cur.succeed(line);
    let down = cur.fail(line);
    proof {
        assert(wf_state(up, e.tr()));
        assert(wf_state(down, e.tr()));
        lemma_choice_fits(e.mode, *cur, line as int, e.tl(), e.tr());
    }
    let vu = e.value_at(&up);
    let vd = e.value_at(&down);
    let wu = vu.mul_u64(cur.chance.success_u64());
    let wd = vd.mul_u64(cur.chance.failure_u64());
    proof {
        lemma_mul_is_commutative(vu@ as int, cur.chance.success_weight() as int);
        lemma_mul_is_commutative(vd@ as int, cur.chance.failure_weight() as int);
        assert(rolls_left(*cur, e.tr()) > 0);
        assert(step_value(*cur, line as int, e.tl(), e.tr()) == max2(
            cur.chance.success_weight() * run_value(up, e.tl(), e.tr()),
            cur.chance.failure_weight() * run_value(down, e.tl(), e.tr()),
        ));
    }
    if wu == *v {
        proof {
            assert(up == cur.spec_succeed(line as int));
            assert(step_weight(*cur, up) == cur.chance.success_weight());
        }
        return Some(up);
    }
    if wd == *v {
        proof {
            assert forall|l: int| 0 <= l < 3 implies down != cur.spec_succeed(l) by {
                assert(cur.spec_succeed(l).line(l) == cur.line(l) + 1);
                assert(down.line(l) == cur.line(l));
            }
            assert(!(exists|l: int| 0 <= l < 3 && down == cur.spec_succeed(l)));
            assert(step_weight(*cur, down) == cur.chance.failure_weight());
            assert(down == cur.spec_fail(line as int));
        }
        return Some(down);
    }
    proof {
        lemma_u192_canonical_ne(wu, *v);
        lemma_u192_canonical_ne(wd, *v);
    }
    None
}

/// Distinct limb triples carry distinct values.
proof fn lemma_u192_canonical_ne(a: U192, b: U192)
    requires
        a != b,
    ensures
        a@ != b@,
{
    if a@ == b@ {
        lemma_u192_canonical(a, b);
    }
}

/// One step of the most probable run from `cur`, which must not yet meet
/// the target and must have a positive best-run value.
fn step_choice(e: &Expectimax, cur: &Stone) -> (next: Stone)
    requires
        e.wf(),
        e.mode == Objective::BestRun,
        e.filled_above(0),
        wf_state(*cur, e.tr()),
        !meets_target(*cur, e.tl()),
        run_value(*cur, e.tl(), e.tr()) > 0,
    ensures
        wf_state(next, e.tr()),
        is_transition(*cur, next, e.tr()),
        next.total_rolls() == cur.total_rolls() + 1,
        step_weight(*cur, next) * run_value(next, e.tl(), e.tr()) == run_value(
            *cur,
            e.tl(),
            e.tr(),
        ),
{
    let v = e.value_at(cur);
    proof {
        assert(v@ == run_value(*cur, e.tl(), e.tr()));
        assert(run_value(*cur, e.tl(), e.tr()) == max3(
            step_value(*cur, 0, e.tl(), e.tr()),
            step_value(*cur, 1, e.tl(), e.tr()),
            step_value(*cur, 2, e.tl(), e.tr()),
        ));
    }
    match try_step(e, cur, 0, &v) {
        Some(n) => n,
        None => match try_step(e, cur, 1, &v) {
            Some(n) => n,
            None => match try_step(e, cur, 2, &v) {
                Some(n) => n,
                None => {
                    proof {
                        assert(false);
                    }
                    vstd::pervasive::unreached()
                },
            },
        },
    }
}

/// Find the most probable run of outcomes from `start` to a state meeting
/// the target successes `lines` within the trial budgets `rolls`.
///
/// Returns the ordered states from `start` to the first state of the run
/// that meets the target, or `None` when no run can reach it. The returned
/// run is valid step by step, stops at the target, and its probability —
/// the product of its outcome weights, scaled by the trials it leaves
/// unused — is exactly the best achievable, `run_value(start)`.
pub fn best_path(start: Stone, lines: [u8; 3], rolls: [u8; 3]) -> (r: Option<Vec<Stone>>)
    requires
        valid_targets(rolls@),
        wf_state(start, rolls@),
        table_size(rolls@) <= usize::MAX,
    ensures
        match r {
            Some(p) => {
                &&& p@.len() >= 1
                &&& p@[0] == start
                &&& meets_target(p@[p@.len() - 1], lines@)
                &&& valid_path(p@, rolls@)
                &&& forall|i: int|
                    #![trigger p@[i]]
                    0 <= i < p@.len() - 1 ==> !meets_target(p@[i], lines@)
                &&& run_value(start, lines@, rolls@) > 0
                &&& path_weight(p@) * pow(20, left_measure(p@[p@.len() - 1], rolls@))
                    == run_value(start, lines@, rolls@)
            },
            None => run_value(start, lines@, rolls@) == 0,
        },
{
    let e = Expectimax::new(Objective::BestRun, lines, rolls);
    let v0 = e.value_at(&start);
    let one = U192::one();
    if v0.lt(&one) {
        return None;
    }
    let mut path: Vec<Stone> = Vec::new();
    let mut cur = start;
    path.push(cur);
    proof {
        assert(path@ =~= seq![start]);
        assert(path_weight(path@) == 1);
    }
    while !(cur.line0 >= lines[0] && cur.line1 >= lines[1] && cur.line2 <= lines[2])
        invariant
            e.wf(),
            e.mode == Objective::BestRun,
            e.filled_above(0),
            e.tl() == lines@,
            e.tr() == rolls@,
            wf_state(cur, rolls@),
            path@.len() >= 1,
            path@[path@.len() - 1] == cur,
            path@[0] == start,
            run_value(cur, lines@, rolls@) > 0,
            run_value(start, lines@, rolls@) > 0,
            valid_path(path@, rolls@),
            forall|i: int|
                #![trigger path@[i]]
                0 <= i < path@.len() - 1 ==> !meets_target(path@[i], lines@),
            path_weight(path@) * run_value(cur, lines@, rolls@) == run_value(
                start,
                lines@,
                rolls@,
            ),
        decreases left_measure(cur, rolls@),
    {
        proof {
            assert(!meets_target(cur, lines@));
            lemma_positive_run_not_stuck(cur, lines@, rolls@);
        }
        let ghost prefix = path@;
        let next = step_choice(&e, &cur);
        path.push(next);
        proof {
            lemma_path_weight_snoc(prefix, next);
            assert(path@ == prefix.push(next));
            lemma_mul_is_associative(
                path_weight(prefix) as int,
                step_weight(cur, next) as int,
                run_value(next, lines@, rolls@) as int,
            );
            assert(path_weight(path@) * run_value(next, lines@, rolls@) == run_value(
                start,
                lines@,
                rolls@,
            ));
            if run_value(next, lines@, rolls@) == 0 {
                lemma_mul_zero(path_weight(path@) as int);
                assert(false);
            }
            assert forall|i: int| 0 <= i < path@.len() - 1 implies is_transition(
                #[trigger] path@[i],
                path@[i + 1],
                rolls@,
            ) by {
                if i < prefix.len() - 1 {
                    assert(prefix[i] == path@[i] && prefix[i + 1] == path@[i + 1]);
                    assert(is_transition(prefix[i], prefix[i + 1], rolls@));
                } else {
                    assert(path@[i] == cur && path@[i + 1] == next);
                }
            }
        }
        cur = next;
    }
    proof {
        assert(meets_target(cur, lines@));
        vstd::arithmetic::power::lemma_pow_positive(20, left_measure(cur, rolls@));
        assert(run_value(cur, lines@, rolls@) == pow(20, left_measure(cur, rolls@)));
    }
    Some(path)
}

/// Multiplying by zero gives zero.
proof fn lemma_mul_zero(x: int)
    ensures
        x * 0 == 0,
{
    lemma_mul_is_commutative(x, 0);
}

} // verus!
