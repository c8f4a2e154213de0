use facet::{expectimax, Chance, Stone, U192};

fn limbs(lo: u64, mid: u64, hi: u64) -> U192 {
    U192 { lo, mid, hi }
}

#[test]
fn one_roll_left_values_terminal_layer() {
    // one trial left on line 0, needing one success there: the numerator is
    // exactly the success weight of 45%, i.e. 9 out of 20
    let stone = Stone::new(Chance::P45, [0, 0, 0], [0, 0, 0]);
    let (nums, den) = expectimax(stone, [1, 0, 0], [1, 0, 0]);
    assert_eq!(nums[0], U192::from_u64(9));
    assert_eq!(nums[1], U192::zero());
    assert_eq!(nums[2], U192::zero());
    assert_eq!(den, U192::from_u64(20));
}

#[test]
fn terminal_start_has_denominator_one() {
    // all budgets already consumed: no choice contributes anything and the
    // shared denominator is 20^0
    let stone = Stone::new(Chance::P75, [1, 0, 0], [2, 1, 0]);
    let (nums, den) = expectimax(stone, [2, 1, 0], [2, 1, 0]);
    assert_eq!(nums, [U192::zero(), U192::zero(), U192::zero()]);
    assert_eq!(den, U192::one());
}

#[test]
fn exhausted_line_is_never_selectable() {
    // line 0 has consumed its full budget: its numerator is forced to 0
    // while the other lines stay live
    let stone = Stone::new(Chance::P75, [1, 0, 0], [2, 0, 0]);
    let (nums, den) = expectimax(stone, [1, 1, 1], [2, 1, 1]);
    assert_eq!(nums[0], U192::zero());
    assert_eq!(nums[1], U192::from_u64(300));
    assert_eq!(nums[2], U192::from_u64(270));
    assert_eq!(den, U192::from_u64(400));
}

#[test]
fn mid_game_regression() {
    let stone = Stone::new(Chance::P65, [2, 1, 0], [3, 2, 1]);
    let (nums, den) = expectimax(stone, [5, 4, 2], [6, 5, 4]);
    assert_eq!(nums[0], U192::from_u64(4601167857));
    assert_eq!(nums[1], U192::from_u64(4601167857));
    assert_eq!(nums[2], U192::from_u64(4149950805));
    assert_eq!(den, U192::from_u64(512000000000));
}

#[test]
fn canonical_scenario() {
    // starting chance 75%, all lines at 0/0, target lines [7, 7, 4] with
    // budgets [10, 10, 10]
    let stone = Stone::new(Chance::P75, [0, 0, 0], [0, 0, 0]);
    let (nums, den) = expectimax(stone, [7, 7, 4], [10, 10, 10]);
    let expected0 = limbs(3953275372289451662, 2802397783689256528, 0);
    let expected2 = limbs(11294171884464687910, 1666549383373570760, 0);
    let expected_den = limbs(10376293541461622784, 2867428692338752378, 3);
    assert_eq!(nums[0], expected0);
    assert_eq!(nums[1], expected0);
    assert_eq!(nums[2], expected2);
    assert_eq!(den, expected_den);
    // the best first move ties between the two required lines
    assert!(nums[2].lt(&nums[0]));
}

#[test]
fn numerators_never_exceed_denominator() {
    let cases: [(Chance, [u8; 3], [u8; 3], [u8; 3], [u8; 3]); 3] = [
        (Chance::P75, [0, 0, 0], [0, 0, 0], [3, 2, 1], [4, 3, 2]),
        (Chance::P25, [1, 1, 0], [2, 2, 1], [3, 3, 1], [4, 4, 2]),
        (Chance::P55, [0, 0, 0], [0, 0, 0], [0, 0, 0], [2, 2, 2]),
    ];
    for (chance, cur_lines, cur_rolls, tl, tr) in cases {
        let stone = Stone::new(chance, cur_lines, cur_rolls);
        let (nums, den) = expectimax(stone, tl, tr);
        for n in nums {
            assert!(!den.lt(&n));
        }
    }
}

#[test]
fn largest_budget_on_one_line() {
    // the engine's exact arithmetic is sized for a 44-trial budget: needing
    // a success on every one of 44 trials multiplies 44 declining weights
    let stone = Stone::new(Chance::P75, [0, 0, 0], [0, 0, 0]);
    let (nums, den) = expectimax(stone, [44, 0, 0], [44, 0, 0]);
    // 15 * 13 * 11 * 9 * 7 * 5^39, the ladder pinned at 25% from then on
    assert_eq!(nums[0], limbs(3298103320206159795, 13325339803380, 0));
    assert_eq!(nums[1], U192::zero());
    assert_eq!(nums[2], U192::zero());
    // the denominator is 20^44, filling all three limbs
    assert_eq!(den, limbs(0, 17456233707185635328, 5169878828456422967));
    assert!(nums[0].lt(&den));
}

#[test]
fn rerun_is_bit_identical() {
    let stone = Stone::new(Chance::P65, [2, 1, 0], [3, 2, 1]);
    let first = expectimax(stone, [5, 4, 2], [6, 5, 4]);
    let second = expectimax(stone, [5, 4, 2], [6, 5, 4]);
    assert_eq!(first, second);
}

#[test]
fn more_budget_on_a_required_line_never_hurts() {
    // same start and target, one extra trial allowed on line 0: every
    // implied probability is monotonically non-decreasing
    let stone = Stone::new(Chance::P55, [0, 0, 0], [0, 0, 0]);
    let (n1, d1) = expectimax(stone, [2, 1, 1], [2, 1, 1]);
    let (n2, d2) = expectimax(stone, [2, 1, 1], [3, 1, 1]);
    assert_eq!(n1, [U192::from_u64(15444), U192::from_u64(15444), U192::from_u64(15048)]);
    assert_eq!(d1, U192::from_u64(160000));
    assert_eq!(n2, [U192::from_u64(808610), U192::from_u64(779504), U192::from_u64(792990)]);
    assert_eq!(d2, U192::from_u64(3200000));
    for l in 0..3 {
        // n2/d2 >= n1/d1  <=>  n2 * d1 >= n1 * d2
        let lhs = n2[l].mul_u64(160000);
        let rhs = n1[l].mul_u64(3200000);
        assert!(!lhs.lt(&rhs));
    }
}

#[test]
fn extra_budget_on_the_capped_line_can_hurt() {
    // the monotonicity law holds for the two required lines only: a forced
    // extra trial on the capped line 2 can overshoot its maximum
    let stone = Stone::new(Chance::P75, [0, 0, 0], [0, 0, 0]);
    let (n1, d1) = expectimax(stone, [0, 0, 0], [0, 0, 1]);
    // the trial on line 2 must be taken, and only its failure keeps the
    // count at the allowed 0: probability 5/20 instead of the certain
    // success of the zero-budget game
    assert_eq!(n1[2], U192::from_u64(5));
    assert_eq!(d1, U192::from_u64(20));
}
