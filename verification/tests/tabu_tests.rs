use rand::SeedableRng;
use rand_chacha::ChaCha8Rng;
use tsqc::tabu::DualTabu;
use tsqc::Ratio;

#[test]
fn basic_tabu_logic() {
    let mut t = DualTabu::new(3, 2, 3);
    // Initially, nothing is tabu
    assert!(!t.is_tabu_u(1));
    assert!(!t.is_tabu_v(2));

    // Forbid and check at iter=0
    t.forbid_u(1);
    t.forbid_v(2);
    assert!(t.is_tabu_u(1));
    assert!(t.is_tabu_v(2));

    // Advance iter; u still tabu until iter >= 2, v until iter >= 3
    t.step(); // iter=1
    assert!(t.is_tabu_u(1));
    assert!(t.is_tabu_v(2));

    t.step(); // iter=2
    assert!(!t.is_tabu_u(1));
    assert!(t.is_tabu_v(2));

    t.step(); // iter=3
    assert!(!t.is_tabu_u(1));
    assert!(!t.is_tabu_v(2));
}

/// Number of steps for which `v` stays tabu for re-adding after `forbid_u`.
fn u_tenure(t: &mut DualTabu, v: usize) -> usize {
    t.forbid_u(v);
    let mut steps = 0;
    while t.is_tabu_u(v) {
        t.step();
        steps += 1;
    }
    steps
}

/// Number of steps for which `v` stays tabu for removal after `forbid_v`.
fn v_tenure(t: &mut DualTabu, v: usize) -> usize {
    t.forbid_v(v);
    let mut steps = 0;
    while t.is_tabu_v(v) {
        t.step();
        steps += 1;
    }
    steps
}

#[test]
fn zero_tenures_are_raised_to_one() {
    let mut t = DualTabu::new(2, 0, 0);
    assert_eq!(u_tenure(&mut t, 0), 1);
    assert_eq!(v_tenure(&mut t, 1), 1);
}

#[test]
fn forbid_lasts_exactly_the_tenure() {
    for tu in 1..6 {
        let mut t = DualTabu::new(4, tu, 1);
        assert_eq!(u_tenure(&mut t, 3), tu);
    }
    for tv in 1..6 {
        let mut t = DualTabu::new(4, 1, tv);
        assert_eq!(v_tenure(&mut t, 2), tv);
    }
}

#[test]
fn reset_clears_marks_and_keeps_clock() {
    let mut t = DualTabu::new(3, 5, 5);
    t.step();
    t.step();
    t.forbid_u(0);
    t.forbid_v(1);
    assert!(t.is_tabu_u(0));
    assert!(t.is_tabu_v(1));
    t.reset();
    assert!(!t.is_tabu_u(0));
    assert!(!t.is_tabu_v(1));
    // The clock stood at 2 and the tenure is still 5.
    assert_eq!(u_tenure(&mut t, 0), 5);
}

#[test]
fn spreads_follow_the_size() {
    assert_eq!(DualTabu::spreads(0), (6, 3));
    assert_eq!(DualTabu::spreads(239), (6, 3));
    assert_eq!(DualTabu::spreads(240), (6, 3));
    assert_eq!(DualTabu::spreads(280), (7, 4));
    assert_eq!(DualTabu::spreads(400), (10, 6));
    assert_eq!(DualTabu::spreads(40), (6, 3));
}

#[test]
fn set_tenures_exact_values() {
    let gamma = Ratio { num: 9, den: 10 };
    // |S| = 5: clique has 10 edges, target ceil(9) = 9.
    // 9 edges: deficit 0, l = 0: tu = 1 + r, tv = max(floor(0.6) + r, 1).
    let mut t = DualTabu::new(5, 1, 1);
    t.set_tenures(5, 9, gamma, 0, 0);
    assert_eq!(u_tenure(&mut t, 0), 1);
    assert_eq!(v_tenure(&mut t, 0), 1);
    t.set_tenures(5, 9, gamma, 4, 2);
    assert_eq!(u_tenure(&mut t, 0), 5);
    assert_eq!(v_tenure(&mut t, 0), 2);
    // 6 edges: deficit 3, l = 3: tu = 4 + r, tv = floor(2.4) + r.
    t.set_tenures(5, 6, gamma, 5, 1);
    assert_eq!(u_tenure(&mut t, 0), 9);
    assert_eq!(v_tenure(&mut t, 0), 3);
    // More edges than the target: no deficit.
    t.set_tenures(5, 10, gamma, 0, 0);
    assert_eq!(u_tenure(&mut t, 0), 1);
}

#[test]
fn set_tenures_caps_the_deficit_at_ten() {
    let gamma = Ratio { num: 1, den: 1 };
    // |S| = 20: target 190 edges, 0 held: deficit 190, l = 10.
    let mut t = DualTabu::new(20, 1, 1);
    t.set_tenures(20, 0, gamma, 0, 0);
    assert_eq!(u_tenure(&mut t, 0), 11);
    assert_eq!(v_tenure(&mut t, 0), 6);
}

#[test]
fn update_tenures_stays_in_range() {
    let gamma = Ratio { num: 9, den: 10 };
    let mut rng = ChaCha8Rng::seed_from_u64(11);
    for _ in 0..200 {
        let mut t = DualTabu::new(5, 1, 1);
        // deficit 3: tu in 4 .. 4 + 6, tv in 2 .. 2 + 3.
        t.update_tenures(5, 6, gamma, &mut rng);
        let tu = u_tenure(&mut t, 0);
        let tv = v_tenure(&mut t, 1);
        assert!((4..10).contains(&tu));
        assert!((2..5).contains(&tv));
    }
}

#[test]
fn update_tenures_draws_vary() {
    let gamma = Ratio { num: 9, den: 10 };
    let mut rng = ChaCha8Rng::seed_from_u64(5);
    let mut seen = [false; 16];
    for _ in 0..200 {
        let mut t = DualTabu::new(5, 1, 1);
        t.update_tenures(5, 6, gamma, &mut rng);
        seen[u_tenure(&mut t, 0)] = true;
    }
    assert!(seen.iter().filter(|&&b| b).count() > 1);
}

#[test]
fn clone_keeps_marks_and_clock() {
    let mut t = DualTabu::new(3, 2, 4);
    t.step();
    t.forbid_u(0);
    t.forbid_v(2);
    let mut copy = t.clone();
    t.reset();
    assert!(copy.is_tabu_u(0) && copy.is_tabu_v(2) && !copy.is_tabu_u(1));
    copy.step();
    copy.step();
    assert!(!copy.is_tabu_u(0) && copy.is_tabu_v(2));
    assert!(!t.is_tabu_u(0));
}
