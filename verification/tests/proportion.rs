use layout_rs::{
    area_k_cap, ceil_div_pos, compute_proportion_pattern, count_plans_fit, counts_for_k,
    enumerate_count_plans, gcd, gcd_many, overproduction_fits, pages_for_k, total_overproduction,
    ProportionError,
};

#[test]
fn s1_01_motivating_ratio() {
    let t = [1000, 2000];
    let pat = compute_proportion_pattern(&t).unwrap();
    assert_eq!(pat.d, 1000);
    assert_eq!(pat.p, vec![1, 2]);
    assert_eq!(counts_for_k(&pat, 1).unwrap(), vec![1, 2]);
    assert_eq!(pages_for_k(&t, &pat, 1).unwrap(), 1000);
    assert_eq!(counts_for_k(&pat, 2).unwrap(), vec![2, 4]);
    assert_eq!(pages_for_k(&t, &pat, 2).unwrap(), 500);
    assert_eq!(counts_for_k(&pat, 1000).unwrap(), vec![1000, 2000]);
    assert_eq!(pages_for_k(&t, &pat, 1000).unwrap(), 1);
}

#[test]
fn s1_02_t_6_10_15() {
    let t = [6, 10, 15];
    let pat = compute_proportion_pattern(&t).unwrap();
    assert_eq!(pat.d, 1);
    assert_eq!(pat.p, vec![6, 10, 15]);
    assert_eq!(pages_for_k(&t, &pat, 1).unwrap(), 1);
}

#[test]
fn s1_03_equal_triple() {
    let t = [100, 100, 100];
    let pat = compute_proportion_pattern(&t).unwrap();
    assert_eq!(pat.d, 100);
    assert_eq!(pat.p, vec![1, 1, 1]);
    assert_eq!(counts_for_k(&pat, 1).unwrap(), vec![1, 1, 1]);
    assert_eq!(pages_for_k(&t, &pat, 1).unwrap(), 100);
}

#[test]
fn s1_04_primitive_ratio_12_18() {
    let t = [12, 18];
    let pat = compute_proportion_pattern(&t).unwrap();
    assert_eq!(pat.d, 6);
    assert_eq!(pat.p, vec![2, 3]);
    assert_eq!(pages_for_k(&t, &pat, 1).unwrap(), 6);
}

#[test]
fn s1_05_triple_gcd() {
    let t = [1000, 2000, 3000];
    let pat = compute_proportion_pattern(&t).unwrap();
    assert_eq!(pat.d, 1000);
    assert_eq!(pat.p, vec![1, 2, 3]);
    assert_eq!(counts_for_k(&pat, 2).unwrap(), vec![2, 4, 6]);
    assert_eq!(pages_for_k(&t, &pat, 2).unwrap(), 500);
}

#[test]
fn s1_06_monotonicity_of_p_k() {
    let t = [1000, 2000];
    let pat = compute_proportion_pattern(&t).unwrap();
    let mut prev = i32::MAX;
    for k in 1..=50 {
        let p = pages_for_k(&t, &pat, k).unwrap();
        let manual: i32 = t
            .iter()
            .zip(pat.p.iter())
            .map(|(&ti, &pi)| ceil_div_pos(ti, k * pi))
            .max()
            .unwrap();
        assert_eq!(p, manual);
        assert!(p <= prev);
        prev = p;
    }
}

#[test]
fn gcd_many_pair() {
    assert_eq!(gcd_many(&[1000, 2000]), 1000);
}

#[test]
fn gcd_of_signed_values() {
    assert_eq!(gcd(12, 18), 6);
    assert_eq!(gcd(-12, 18), 6);
    assert_eq!(gcd(0, 0), 0);
    assert_eq!(gcd(0, 7), 7);
    assert_eq!(gcd_many(&[]), 0);
    assert_eq!(gcd_many(&[6, 10, 15]), 1);
}

#[test]
fn pattern_is_primitive_and_gives_back_targets() {
    for t in [vec![12, 18], vec![1000, 2000, 3000], vec![6, 10, 15], vec![7]] {
        let pat = compute_proportion_pattern(&t).unwrap();
        assert!(pat.d > 0);
        assert_eq!(gcd_many(&pat.p), 1);
        for i in 0..t.len() {
            assert_eq!(pat.d * pat.p[i], t[i]);
        }
    }
}

#[test]
fn pattern_errors() {
    assert_eq!(compute_proportion_pattern(&[]), Err(ProportionError::EmptyTargets));
    assert_eq!(compute_proportion_pattern(&[3, 0]), Err(ProportionError::InvalidTarget));
    assert_eq!(compute_proportion_pattern(&[3, -1]), Err(ProportionError::InvalidTarget));
    let pat = compute_proportion_pattern(&[2, 4]).unwrap();
    assert_eq!(counts_for_k(&pat, 0), Err(ProportionError::InvalidK));
    assert_eq!(pages_for_k(&[2, 4], &pat, -3), Err(ProportionError::InvalidK));
    assert_eq!(ProportionError::EmptyTargets.message(), "targets must be non-empty");
    assert_eq!(ProportionError::InvalidTarget.message(), "each target must be a positive integer");
    assert_eq!(ProportionError::InvalidK.message(), "k must be a positive integer");
}

#[test]
fn pages_meet_every_target_and_no_fewer_would() {
    let t = [1000, 2000, 300];
    let pat = compute_proportion_pattern(&t).unwrap();
    for k in [1, 3, 7, 40] {
        let c = counts_for_k(&pat, k).unwrap();
        let p = pages_for_k(&t, &pat, k).unwrap();
        assert!((0..t.len()).all(|i| c[i] * p >= t[i]));
        assert!((0..t.len()).any(|i| c[i] * (p - 1) < t[i]));
    }
}

#[test]
fn ceil_division() {
    assert_eq!(ceil_div_pos(7, 2), 4);
    assert_eq!(ceil_div_pos(8, 2), 4);
    assert_eq!(ceil_div_pos(1, 5), 1);
    assert_eq!(ceil_div_pos(i32::MAX, 1), i32::MAX);
    assert_eq!(ceil_div_pos(i32::MAX - 1, 2), (i32::MAX - 1) / 2);
}

#[test]
fn bounds_reach_the_end_of_the_range() {
    let t = [1 << 20, 3];
    let pat = compute_proportion_pattern(&t).unwrap();
    assert_eq!(pat.p, vec![1 << 20, 3]);
    assert!(count_plans_fit(&t, &pat, 2047));
    assert!(!count_plans_fit(&t, &pat, 2048));
    let one = [i32::MAX];
    let pat1 = compute_proportion_pattern(&one).unwrap();
    assert_eq!(pages_for_k(&one, &pat1, 1), Ok(i32::MAX));
}

#[test]
fn overproduction_exact() {
    assert_eq!(total_overproduction(&[1000, 2000], &[1, 2], 1000), 0);
    assert_eq!(total_overproduction(&[1000, 2000], &[3, 5], 400), 200);
    assert_eq!(total_overproduction(&[], &[], 9), 0);
    assert!(overproduction_fits(&[1000, 2000], &[3, 5], 400));
    assert!(!overproduction_fits(&[1], &[i32::MAX], 2));
    assert!(!overproduction_fits(&[1, 2], &[1], 2));
}

#[test]
fn count_plans_in_discovery_order() {
    let t = [2, 4];
    let pat = compute_proportion_pattern(&t).unwrap();
    assert!(count_plans_fit(&t, &pat, 2));
    let plans = enumerate_count_plans(&t, &pat, 2);
    assert_eq!(plans.len(), 3);
    assert_eq!(plans[0].counts, vec![1, 2]);
    assert_eq!(plans[0].pages, 2);
    assert_eq!(plans[0].gcd_k, Some(1));
    assert_eq!(plans[1].counts, vec![2, 4]);
    assert_eq!(plans[1].pages, 1);
    assert_eq!(plans[1].gcd_k, Some(2));
    assert_eq!(plans[2].counts, vec![1, 1]);
    assert_eq!(plans[2].pages, 4);
    assert_eq!(plans[2].gcd_k, None);
}

#[test]
fn count_plans_fit_refuses_overflow() {
    let t = [i32::MAX];
    let pat = compute_proportion_pattern(&t).unwrap();
    assert!(!count_plans_fit(&t, &pat, 1));
}

#[test]
fn area_cap_from_trivial_area() {
    let pat = compute_proportion_pattern(&[1000, 2000]).unwrap();
    assert_eq!(area_k_cap(&pat, 700, 600, &[(100, 300), (70, 100)]), 14);
    assert_eq!(area_k_cap(&pat, 700, 600, &[]), 1);
    assert_eq!(area_k_cap(&pat, 10, 10, &[(100, 300), (70, 100)]), 1);
    assert_eq!(area_k_cap(&pat, 100_000, 100_000, &[(1, 1), (1, 1)]), i32::MAX);
}
