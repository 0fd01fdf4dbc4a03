use pulsar::hybrid_miss::{
    bandwidth_or, cpu_steal, lru_victims, plan_host_misses_with, q_star, split_by_recency,
    DEFAULT_HOST_GBS, DEFAULT_PCIE_GBS, INFINITY_BITS,
};

/// `q_star` with the share that the bandwidths give.
fn q(n_miss: usize, pcie_gbs: f64, host_gbs: f64) -> usize {
    let share = (n_miss as f64 * pcie_gbs / host_gbs).round() as usize;
    q_star(n_miss, pcie_gbs.to_bits(), host_gbs.to_bits(), share)
}

#[test]
fn q_star_zero_misses_is_zero() {
    assert_eq!(q(0, 28.7, 42.0), 0);
}

#[test]
fn q_star_always_fills_at_least_one() {
    assert_eq!(q(1, 28.7, 42.0), 1);
    assert!(q(2, 1.0, 100.0) >= 1);
}

#[test]
fn q_star_host_not_above_pcie_fills_all() {
    assert_eq!(q(6, 30.0, 20.0), 6);
    assert_eq!(q(6, 30.0, 30.0), 6);
}

#[test]
fn q_star_reference_box_is_pcie_over_host() {
    let pcie = f64::from_bits(DEFAULT_PCIE_GBS);
    let host = f64::from_bits(DEFAULT_HOST_GBS);
    assert_eq!(pcie, 28.7);
    assert_eq!(host, 42.0);
    // 6 * 28.7 / 42 = 4.1 → 4
    assert_eq!(q(6, pcie, host), 4);
    // 3 * 28.7 / 42 = 2.05 → 2
    assert_eq!(q(3, pcie, host), 2);
}

#[test]
fn q_star_slow_pcie_fills_less() {
    // 13.1 GB/s H2D vs 42 GB/s host → 6 * 13.1/42 ≈ 2
    assert_eq!(q(6, 13.1, 42.0), 2);
    assert_eq!(q(6, 28.7, 42.0), 4);
}

#[test]
fn q_star_rejects_bandwidths_that_are_not_positive_and_finite() {
    for bad in [0.0, -0.0, -1.0, f64::INFINITY, f64::NEG_INFINITY, f64::NAN] {
        assert_eq!(q_star(5, bad.to_bits(), 42f64.to_bits(), 1), 5);
        assert_eq!(q_star(5, 28.7f64.to_bits(), bad.to_bits(), 1), 5);
    }
    assert_eq!(INFINITY_BITS, f64::INFINITY.to_bits());
}

#[test]
fn q_star_clamps_the_share() {
    let (pcie, host) = (1f64.to_bits(), 2f64.to_bits());
    assert_eq!(q_star(5, pcie, host, 0), 1);
    assert_eq!(q_star(5, pcie, host, 3), 3);
    assert_eq!(q_star(5, pcie, host, 9), 5);
}

#[test]
fn q_star_never_falls_with_more_misses_or_a_faster_link() {
    let links = [0.5, 1.0, 13.1, 28.7, 41.9, 42.0, 60.0, f64::INFINITY];
    for host in [42.0, 0.0, -1.0, 28.7, f64::INFINITY, f64::NAN] {
        for n in 0..30 {
            for w in links.windows(2) {
                assert!(q(n, w[0], host) <= q(n + 1, w[0], host));
                assert!(q(n, w[0], host) <= q(n, w[1], host));
            }
        }
    }
}

#[test]
fn split_empty() {
    let s = split_by_recency(&[], 1);
    assert!(s.fill.is_empty() && s.cpu.is_empty());
}

#[test]
fn split_fills_most_recent_and_cpus_the_rest() {
    let misses = [(10, 1u64), (20, 9), (30, 3), (40, 7)];
    let s = split_by_recency(&misses, 2);
    assert_eq!(s.fill, vec![20, 40]);
    assert_eq!(s.cpu, vec![30, 10]);
}

#[test]
fn split_never_seen_sorts_last() {
    let misses = [(1, 0u64), (2, 5), (3, 0)];
    let s = split_by_recency(&misses, 1);
    assert_eq!(s.fill, vec![2]);
    assert_eq!(s.cpu, vec![1, 3]);
}

#[test]
fn split_q_greater_than_m_fills_all() {
    let misses = [(1, 1u64), (2, 2)];
    let s = split_by_recency(&misses, 99);
    assert_eq!(s.fill, vec![2, 1]);
    assert!(s.cpu.is_empty());
}

#[test]
fn split_equal_recency_keeps_input_order() {
    let misses = [(1, 4u64), (2, 4), (3, 4)];
    let s = split_by_recency(&misses, 2);
    assert_eq!(s.fill, vec![1, 2]);
    assert_eq!(s.cpu, vec![3]);
}

#[test]
fn split_without_a_quota_still_fills_one() {
    let s = split_by_recency(&[(1, 1u64), (2, 2)], 0);
    assert_eq!(s.fill, vec![2]);
    assert_eq!(s.cpu, vec![1]);
}

#[test]
fn split_keeps_every_id_once() {
    let misses: Vec<(i32, u64)> = (0..40).map(|i| (i, (i as u64 * 7919) % 13)).collect();
    for quota in 0..45 {
        let s = split_by_recency(&misses, quota);
        let mut all = s.fill.clone();
        all.extend_from_slice(&s.cpu);
        all.sort();
        assert_eq!(all, (0..40).collect::<Vec<i32>>());
        assert_eq!(s.fill.len(), quota.clamp(1, 40));
    }
}

#[test]
fn plan_without_the_hybrid_split_sends_all_to_the_cpu_in_order() {
    let misses = [(10, 1u64), (20, 9), (30, 3)];
    let s = plan_host_misses_with(&misses, true, DEFAULT_PCIE_GBS, DEFAULT_HOST_GBS, 2);
    assert!(s.fill.is_empty());
    assert_eq!(s.cpu, vec![10, 20, 30]);
}

#[test]
fn plan_splits_by_share_and_recency() {
    let misses = [(10, 1u64), (20, 9), (30, 3)];
    let s = plan_host_misses_with(&misses, false, DEFAULT_PCIE_GBS, DEFAULT_HOST_GBS, 2);
    assert_eq!(s.fill, vec![20, 30]);
    assert_eq!(s.cpu, vec![10]);
    let s = plan_host_misses_with(&[], false, DEFAULT_PCIE_GBS, DEFAULT_HOST_GBS, 2);
    assert!(s.fill.is_empty() && s.cpu.is_empty());
}

#[test]
fn bandwidth_setting_has_to_be_positive() {
    let d = DEFAULT_PCIE_GBS;
    assert_eq!(bandwidth_or(Some(12.5f64.to_bits()), d), 12.5f64.to_bits());
    assert_eq!(bandwidth_or(Some(f64::INFINITY.to_bits()), d), f64::INFINITY.to_bits());
    for bad in [0.0, -0.0, -3.0, f64::NAN] {
        assert_eq!(bandwidth_or(Some(bad.to_bits()), d), d);
    }
    assert_eq!(bandwidth_or(None, d), d);
}

#[test]
fn cpu_steal_is_on_unless_switched_off() {
    assert!(cpu_steal(None));
    assert!(cpu_steal(Some("1")));
    assert!(cpu_steal(Some("")));
    assert!(cpu_steal(Some("OFF")));
    assert!(!cpu_steal(Some("0")));
    assert!(!cpu_steal(Some("off")));
    assert!(!cpu_steal(Some("false")));
}

#[test]
fn lru_victims_skips_in_use_and_returns_oldest() {
    // slot 0 off=10 tick=5, slot 1 off=20 tick=1, slot 2 off=30 tick=9
    let slots = [(10u64, 5u64), (20, 1), (30, 9)];
    let v = lru_victims(&slots, &[10], 2);
    assert_eq!(v, vec![1, 2]); // 20 (tick 1) then 30 (tick 9); 10 is in-use
}

#[test]
fn lru_victims_need_zero_or_empty() {
    assert!(lru_victims(&[(1, 1)], &[], 0).is_empty());
    assert!(lru_victims(&[], &[], 3).is_empty());
}

#[test]
fn lru_victims_with_equal_ticks_come_by_slot() {
    let slots = [(1u64, 4u64), (2, 4), (3, 2), (4, 4)];
    assert_eq!(lru_victims(&slots, &[], 9), vec![2, 0, 1, 3]);
    assert_eq!(lru_victims(&slots, &[1, 2, 3, 4], 9), Vec::<usize>::new());
}
