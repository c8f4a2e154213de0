//! The bijective mapping from states to memo-table slots.
//!
//! For one line with trial budget `b`, the pairs (attempts `r`, successes
//! `l`) with `l <= r <= b` are ranked `tri(r) + l`, a triangular-number
//! layout with `tri(b + 1)` slots. The three per-line ranks and the ladder
//! level combine by mixed-radix encoding into one flat index, so the memo
//! table is a dense array sized exactly to the reachable state count.

use crate::stone::Stone;
use crate::valuation::wf_state;
use vstd::arithmetic::div_mod::lemma_fundamental_div_mod_converse;
use vstd::arithmetic::mul::{lemma_mul_inequality, lemma_mul_strictly_positive};
use vstd::prelude::*;

verus! {

/// The `n`-th triangular number: `0 + 1 + ... + n`.
pub open spec fn tri(n: int) -> int
    decreases n,
{
    if n <= 0 {
        0
    } else {
        n + tri(n - 1)
    }
}

pub proof fn lemma_tri_nonneg(n: int)
    ensures
        tri(n) >= 0,
    decreases n,
{
    if n > 0 {
        lemma_tri_nonneg(n - 1);
    }
}

pub proof fn lemma_tri_monotone(a: int, b: int)
    requires
        a <= b,
    ensures
        tri(a) <= tri(b),
    decreases b,
{
    if a < b && b > 0 {
        lemma_tri_monotone(a, b - 1);
    }
}

/// Twice a triangular number is the familiar closed form.
pub proof fn lemma_tri_formula(n: int)
    requires
        n >= 0,
    ensures
        2 * tri(n) == n * (n + 1),
    decreases n,
{
    if n > 0 {
        lemma_tri_formula(n - 1);
        assert(tri(n) == n + tri(n - 1));
        assert(2 * tri(n - 1) == (n - 1) * ((n - 1) + 1));
        assert(n * (n + 1) == (n - 1) * ((n - 1) + 1) + 2 * n) by (nonlinear_arith);
        assert(2 * tri(n) == n * (n + 1));
    } else {
        assert(n * (n + 1) == 0) by (nonlinear_arith)
            requires
                n == 0,
        ;
    }
}

/// Rank of the pair (attempts `r`, successes `l`) within one line's layout.
pub open spec fn line_digit(s: Stone, l: int, tr: Seq<u8>) -> int {
    tri(s.roll(l) as int) + s.line(l)
}

/// Slots one line contributes: one per pair with `l <= r <= tr[l]`.
pub open spec fn line_size(tr: Seq<u8>, l: int) -> int {
    tri(tr[l] + 1)
}

/// Unique slot of a state: the ladder level and the three per-line ranks
/// combined by mixed-radix encoding.
pub open spec fn cell_index(s: Stone, tr: Seq<u8>) -> int {
    ((s.chance.spec_ladder_index() * line_size(tr, 0) + line_digit(s, 0, tr)) * line_size(tr, 1)
        + line_digit(s, 1, tr)) * line_size(tr, 2) + line_digit(s, 2, tr)
}

/// Number of slots: the product of the per-line slot counts and the six
/// ladder levels.
pub open spec fn table_size(tr: Seq<u8>) -> int {
    6 * line_size(tr, 0) * line_size(tr, 1) * line_size(tr, 2)
}

/// A line's rank is within its slot count.
pub proof fn lemma_digit_bounds(r: int, l: int, b: int)
    requires
        0 <= l <= r <= b,
    ensures
        0 <= tri(r) + l < tri(b + 1),
{
    lemma_tri_nonneg(r);
    assert(tri(r + 1) == r + 1 + tri(r));
    lemma_tri_monotone(r + 1, b + 1);
}

/// Ranks are injective: equal ranks mean the same attempts and successes.
pub proof fn lemma_digit_injective(r1: int, l1: int, r2: int, l2: int)
    requires
        0 <= l1 <= r1,
        0 <= l2 <= r2,
        tri(r1) + l1 == tri(r2) + l2,
    ensures
        r1 == r2 && l1 == l2,
{
    if r1 < r2 {
        assert(tri(r1 + 1) == r1 + 1 + tri(r1));
        lemma_tri_monotone(r1 + 1, r2);
    }
    if r2 < r1 {
        assert(tri(r2 + 1) == r2 + 1 + tri(r2));
        lemma_tri_monotone(r2 + 1, r1);
    }
}

/// Every reachable state maps into the table.
pub proof fn lemma_cell_index_bounds(s: Stone, tr: Seq<u8>)
    requires
        wf_state(s, tr),
    ensures
        0 <= cell_index(s, tr) < table_size(tr),
{
    let c = s.chance.spec_ladder_index();
    let d0 = line_digit(s, 0, tr);
    let d1 = line_digit(s, 1, tr);
    let d2 = line_digit(s, 2, tr);
    let s0 = line_size(tr, 0);
    let s1 = line_size(tr, 1);
    let s2 = line_size(tr, 2);
    lemma_digit_bounds(s.roll0 as int, s.line0 as int, tr[0] as int);
    lemma_digit_bounds(s.roll1 as int, s.line1 as int, tr[1] as int);
    lemma_digit_bounds(s.roll2 as int, s.line2 as int, tr[2] as int);
    let a = c * s0 + d0;
    lemma_mixed_radix_bounds(c, 6, d0, s0);
    let b = a * s1 + d1;
    lemma_mixed_radix_bounds(a, 6 * s0, d1, s1);
    lemma_mixed_radix_bounds(b, 6 * s0 * s1, d2, s2);
}

/// Appending a digit below the radix keeps the encoding below the enlarged
/// bound and nonnegative.
pub proof fn lemma_mixed_radix_bounds(q: int, qb: int, d: int, radix: int)
    requires
        0 <= q < qb,
        0 <= d < radix,
    ensures
        0 <= q * radix + d < qb * radix,
{
    assert(q * radix + d < (q + 1) * radix) by (nonlinear_arith)
        requires
            d < radix,
    ;
    lemma_mul_inequality(q + 1, qb, radix);
    assert(q * radix >= 0) by (nonlinear_arith)
        requires
            q >= 0 && radix > 0,
    ;
}

/// Appending digits below the radix is injective.
pub proof fn lemma_mixed_radix_injective(q1: int, d1: int, q2: int, d2: int, radix: int)
    requires
        0 <= d1 < radix,
        0 <= d2 < radix,
        q1 * radix + d1 == q2 * radix + d2,
    ensures
        q1 == q2 && d1 == d2,
{
    let x = q1 * radix + d1;
    lemma_fundamental_div_mod_converse(x, radix, q1, d1);
    lemma_fundamental_div_mod_converse(x, radix, q2, d2);
}

/// Distinct reachable states never share a slot.
pub proof fn lemma_cell_index_injective(s1: Stone, s2: Stone, tr: Seq<u8>)
    requires
        wf_state(s1, tr),
        wf_state(s2, tr),
        cell_index(s1, tr) == cell_index(s2, tr),
    ensures
        s1 == s2,
{
    let sz0 = line_size(tr, 0);
    let sz1 = line_size(tr, 1);
    let sz2 = line_size(tr, 2);
    lemma_digit_bounds(s1.roll0 as int, s1.line0 as int, tr[0] as int);
    lemma_digit_bounds(s1.roll1 as int, s1.line1 as int, tr[1] as int);
    lemma_digit_bounds(s1.roll2 as int, s1.line2 as int, tr[2] as int);
    lemma_digit_bounds(s2.roll0 as int, s2.line0 as int, tr[0] as int);
    lemma_digit_bounds(s2.roll1 as int, s2.line1 as int, tr[1] as int);
    lemma_digit_bounds(s2.roll2 as int, s2.line2 as int, tr[2] as int);
    let a1 = s1.chance.spec_ladder_index() * sz0 + line_digit(s1, 0, tr);
    let b1 = a1 * sz1 + line_digit(s1, 1, tr);
    let a2 = s2.chance.spec_ladder_index() * sz0 + line_digit(s2, 0, tr);
    let b2 = a2 * sz1 + line_digit(s2, 1, tr);
    lemma_mixed_radix_bounds(s1.chance.spec_ladder_index(), 6, line_digit(s1, 0, tr), sz0);
    lemma_mixed_radix_bounds(a1, 6 * sz0, line_digit(s1, 1, tr), sz1);
    lemma_mixed_radix_bounds(s2.chance.spec_ladder_index(), 6, line_digit(s2, 0, tr), sz0);
    lemma_mixed_radix_bounds(a2, 6 * sz0, line_digit(s2, 1, tr), sz1);
    lemma_mixed_radix_injective(b1, line_digit(s1, 2, tr), b2, line_digit(s2, 2, tr), sz2);
    lemma_mixed_radix_injective(a1, line_digit(s1, 1, tr), a2, line_digit(s2, 1, tr), sz1);
    lemma_mixed_radix_injective(
        s1.chance.spec_ladder_index(),
        line_digit(s1, 0, tr),
        s2.chance.spec_ladder_index(),
        line_digit(s2, 0, tr),
        sz0,
    );
    lemma_digit_injective(s1.roll0 as int, s1.line0 as int, s2.roll0 as int, s2.line0 as int);
    lemma_digit_injective(s1.roll1 as int, s1.line1 as int, s2.roll1 as int, s2.line1 as int);
    lemma_digit_injective(s1.roll2 as int, s1.line2 as int, s2.roll2 as int, s2.line2 as int);
    assert(s1.chance == s2.chance);
}

/// The per-line slot counts are positive, and so is the whole table.
pub proof fn lemma_table_size_positive(tr: Seq<u8>)
    requires
        tr.len() == 3,
    ensures
        line_size(tr, 0) >= 1,
        line_size(tr, 1) >= 1,
        line_size(tr, 2) >= 1,
        table_size(tr) >= 1,
{
    lemma_tri_nonneg(tr[0] as int);
    lemma_tri_nonneg(tr[1] as int);
    lemma_tri_nonneg(tr[2] as int);
    lemma_mul_strictly_positive(6 * line_size(tr, 0), line_size(tr, 1));
    lemma_mul_strictly_positive(6 * line_size(tr, 0) * line_size(tr, 1), line_size(tr, 2));
}

} // verus!
