use facet::{Chance, Stone, U192};

#[test]
fn ladder_all_levels_in_order() {
    let all = Chance::all();
    assert_eq!(
        all,
        [Chance::P25, Chance::P35, Chance::P45, Chance::P55, Chance::P65, Chance::P75]
    );
}

#[test]
fn ladder_succeed_moves_toward_25() {
    assert_eq!(Chance::P75.succeed(), Chance::P65);
    assert_eq!(Chance::P65.succeed(), Chance::P55);
    assert_eq!(Chance::P55.succeed(), Chance::P45);
    assert_eq!(Chance::P45.succeed(), Chance::P35);
    assert_eq!(Chance::P35.succeed(), Chance::P25);
}

#[test]
fn ladder_fail_moves_toward_75() {
    assert_eq!(Chance::P25.fail(), Chance::P35);
    assert_eq!(Chance::P35.fail(), Chance::P45);
    assert_eq!(Chance::P45.fail(), Chance::P55);
    assert_eq!(Chance::P55.fail(), Chance::P65);
    assert_eq!(Chance::P65.fail(), Chance::P75);
}

#[test]
fn ladder_clamped_at_both_ends() {
    assert_eq!(Chance::P25.succeed(), Chance::P25);
    assert_eq!(Chance::P75.fail(), Chance::P75);
}

#[test]
fn ladder_is_lossy_at_the_boundary() {
    // succeed-then-fail need not return to the starting level
    assert_eq!(Chance::P25.succeed().fail(), Chance::P35);
    assert_ne!(Chance::P25.succeed().fail(), Chance::P25);
    // away from the boundary it does return
    assert_eq!(Chance::P55.succeed().fail(), Chance::P55);
}

#[test]
fn weights_sum_to_twenty() {
    for c in Chance::all() {
        assert_eq!(c.success_u64() + c.failure_u64(), 20);
    }
}

#[test]
fn weights_exact_values() {
    let success: Vec<u64> = Chance::all().iter().map(|c| c.success_u64()).collect();
    let failure: Vec<u64> = Chance::all().iter().map(|c| c.failure_u64()).collect();
    assert_eq!(success, vec![5, 7, 9, 11, 13, 15]);
    assert_eq!(failure, vec![15, 13, 11, 9, 7, 5]);
}

#[test]
fn weights_as_wide_integers() {
    assert_eq!(Chance::P25.success(), U192::from_u64(5));
    assert_eq!(Chance::P75.success(), U192::from_u64(15));
    assert_eq!(Chance::P25.failure(), U192::from_u64(15));
    assert_eq!(Chance::P75.failure(), U192::from_u64(5));
}

#[test]
fn default_chance_is_75() {
    assert_eq!(Chance::default(), Chance::P75);
}

#[test]
fn default_stone_is_fresh() {
    let s = Stone::default();
    assert_eq!(s.chance, Chance::P75);
    assert_eq!(s.lines(), [0, 0, 0]);
    assert_eq!(s.rolls(), [0, 0, 0]);
}

#[test]
fn stone_succeed_advances_line_and_ladder() {
    let s = Stone::new(Chance::P75, [1, 2, 3], [2, 3, 4]);
    let t = s.succeed(1);
    assert_eq!(t.chance, Chance::P65);
    assert_eq!(t.lines(), [1, 3, 3]);
    assert_eq!(t.rolls(), [2, 4, 4]);
}

#[test]
fn stone_fail_advances_rolls_only() {
    let s = Stone::new(Chance::P45, [1, 2, 3], [2, 3, 4]);
    let t = s.fail(2);
    assert_eq!(t.chance, Chance::P55);
    assert_eq!(t.lines(), [1, 2, 3]);
    assert_eq!(t.rolls(), [2, 3, 5]);
}

#[test]
fn stone_equality_is_structural() {
    let a = Stone::new(Chance::P45, [1, 0, 0], [1, 0, 0]);
    let b = Stone::new(Chance::P45, [1, 0, 0], [1, 0, 0]);
    assert_eq!(a, b);
    assert_ne!(a, a.fail(0));
}
