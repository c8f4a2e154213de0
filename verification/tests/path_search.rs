use facet::{best_path, Chance, Stone, U192};

fn limbs(lo: u64, mid: u64, hi: u64) -> U192 {
    U192 { lo, mid, hi }
}

/// The outcome weight of the step from `a` to `b`, and a check that the
/// step is a legal transition under the budgets `tr`.
fn checked_step_weight(a: &Stone, b: &Stone, tr: [u8; 3]) -> u64 {
    for line in 0..3 {
        if a.rolls()[line] < tr[line] {
            if *b == a.succeed(line) {
                return a.chance.success_u64();
            }
            if *b == a.fail(line) {
                return a.chance.failure_u64();
            }
        }
    }
    panic!("not a valid transition");
}

#[test]
fn canonical_path_is_valid_and_optimal() {
    // canonical start (75%, all lines 0/0) toward target [7, 7, 4] with
    // budgets [10, 10, 10]
    let start = Stone::default();
    let tl = [7u8, 7, 4];
    let tr = [10u8, 10, 10];
    let path = best_path(start, tl, tr).expect("target is reachable");

    assert_eq!(path[0], start);
    let last = path.last().unwrap();
    let lines = last.lines();
    assert!(lines[0] >= tl[0] && lines[1] >= tl[1] && lines[2] <= tl[2]);
    // no earlier state already meets the target
    for s in &path[..path.len() - 1] {
        let l = s.lines();
        assert!(!(l[0] >= tl[0] && l[1] >= tl[1] && l[2] <= tl[2]));
    }

    // every adjacent pair is a valid succeed/fail transition, and the
    // probability of the whole run matches the engine's best-run value
    let mut weight = U192::one();
    for pair in path.windows(2) {
        weight = weight.mul_u64(checked_step_weight(&pair[0], &pair[1], tr));
    }
    let used: u64 = last.rolls().iter().map(|r| *r as u64).sum();
    let mut scaled = weight;
    for _ in used..30 {
        scaled = scaled.mul_u64(20);
    }
    assert_eq!(scaled, limbs(11631570819948658688, 52134645639382, 0));
}

#[test]
fn unreachable_target_returns_none() {
    // one success required on line 0 but no trials allowed anywhere
    let start = Stone::default();
    assert!(best_path(start, [1, 0, 0], [0, 0, 0]).is_none());
}

#[test]
fn start_already_meeting_target_is_a_one_state_path() {
    let start = Stone::default();
    let path = best_path(start, [0, 0, 0], [0, 0, 0]).expect("already met");
    assert_eq!(path, vec![start]);
}

#[test]
fn short_path_reaches_a_small_target() {
    // two successes on line 0 within two trials, nothing else allowed
    let start = Stone::new(Chance::P75, [0, 0, 0], [0, 0, 0]);
    let tl = [2u8, 0, 0];
    let tr = [2u8, 0, 0];
    let path = best_path(start, tl, tr).expect("reachable");
    assert_eq!(path.len(), 3);
    assert_eq!(path[0], start);
    assert_eq!(path[1], start.succeed(0));
    assert_eq!(path[2], start.succeed(0).succeed(0));
    // probability 15/20 * 13/20
    let mut weight = U192::one();
    for pair in path.windows(2) {
        weight = weight.mul_u64(checked_step_weight(&pair[0], &pair[1], tr));
    }
    assert_eq!(weight, U192::from_u64(15 * 13));
}
