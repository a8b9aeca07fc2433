use gpu_usage::luid::Luid;
use gpu_usage::usage::{
    aggregate, position, sort_ascending, usage_report, AdapterEntry, MeanUsage, FULL_SCALE,
    PLACEHOLDER_SAMPLE,
};

fn entry(low_part: u32, sample: u32) -> AdapterEntry {
    AdapterEntry { luid: Luid { high_part: 0, low_part }, sample }
}

fn percent(mean: &MeanUsage) -> f64 {
    mean.total as f64 / mean.count as f64 / 100.0
}

#[test]
fn key_is_sixteen_hex_digits_high_part_first() {
    assert_eq!(Luid { high_part: 1, low_part: 0xabc }.key(), "0000000100000abc");
    assert_eq!(Luid { high_part: 0, low_part: 0 }.key(), "0000000000000000");
    assert_eq!(Luid { high_part: 0x1234_5678, low_part: 0x9abc_def0 }.key(), "123456789abcdef0");
}

#[test]
fn key_of_negative_high_part_is_twos_complement() {
    assert_eq!(Luid { high_part: -1, low_part: u32::MAX }.key(), "ffffffffffffffff");
    assert_eq!(Luid { high_part: i32::MIN, low_part: 1 }.key(), "8000000000000001");
    assert_eq!(Luid { high_part: -2, low_part: 0x10 }.key(), "fffffffe00000010");
}

#[test]
fn key_agrees_with_std_formatting() {
    let parts: [(i32, u32); 6] =
        [(0, 0), (7, 9), (-7, 0xdead_beef), (i32::MAX, u32::MAX), (i32::MIN, 0), (65536, 4096)];
    for (high_part, low_part) in parts {
        let luid = Luid { high_part, low_part };
        assert_eq!(luid.key(), format!("{:08x}{:08x}", high_part, low_part));
    }
}

#[test]
fn key_uses_every_lower_case_digit() {
    assert_eq!(
        Luid { high_part: 0x0123_4567, low_part: 0x89ab_cdef }.key(),
        "0123456789abcdef"
    );
}

#[test]
fn placeholder_sample_is_zero() {
    assert_eq!(PLACEHOLDER_SAMPLE, 0);
}

#[test]
fn position_finds_the_identity_or_nothing() {
    let luids = vec![
        Luid { high_part: 0, low_part: 5 },
        Luid { high_part: 1, low_part: 5 },
        Luid { high_part: 0, low_part: 6 },
    ];
    assert_eq!(position(&luids, Luid { high_part: 1, low_part: 5 }), Some(1));
    assert_eq!(position(&luids, Luid { high_part: 0, low_part: 6 }), Some(2));
    assert_eq!(position(&luids, Luid { high_part: 1, low_part: 6 }), None);
    assert_eq!(position(&Vec::new(), Luid { high_part: 0, low_part: 0 }), None);
}

#[test]
fn aggregate_groups_in_first_seen_order() {
    let entries = vec![entry(1, 5000), entry(2, 1000), entry(1, 2500), entry(3, 10000)];
    assert_eq!(
        aggregate(&entries),
        vec![
            MeanUsage { total: 7500, count: 2 },
            MeanUsage { total: 1000, count: 1 },
            MeanUsage { total: 10000, count: 1 },
        ]
    );
}

#[test]
fn aggregate_of_nothing_is_empty() {
    assert_eq!(aggregate(&Vec::new()), Vec::new());
    assert_eq!(usage_report(&Vec::new()), Vec::new());
}

#[test]
fn aggregate_sums_large_samples_without_wrapping() {
    let entries = vec![entry(1, u32::MAX), entry(1, u32::MAX), entry(1, u32::MAX)];
    assert_eq!(aggregate(&entries), vec![MeanUsage { total: 3 * (u32::MAX as u64), count: 3 }]);
}

#[test]
fn report_is_ascending_by_mean() {
    let entries = vec![entry(1, 5000), entry(2, 1000), entry(1, 2500), entry(3, 10000)];
    let report = usage_report(&entries);
    assert_eq!(
        report,
        vec![
            MeanUsage { total: 1000, count: 1 },
            MeanUsage { total: 7500, count: 2 },
            MeanUsage { total: 10000, count: 1 },
        ]
    );
    let percents: Vec<f64> = report.iter().map(percent).collect();
    assert_eq!(percents, vec![10.0, 37.5, 100.0]);
    for pair in report.windows(2) {
        assert!(pair[0].le(&pair[1]));
    }
}

#[test]
fn report_orders_by_mean_not_by_total() {
    let entries = vec![
        entry(1, 3000),
        entry(1, 3000),
        entry(1, 3000),
        entry(2, 4000),
        entry(3, 100),
        entry(3, 200),
    ];
    assert_eq!(
        usage_report(&entries),
        vec![
            MeanUsage { total: 300, count: 2 },
            MeanUsage { total: 9000, count: 3 },
            MeanUsage { total: 4000, count: 1 },
        ]
    );
}

#[test]
fn sort_keeps_every_mean() {
    let means = vec![
        MeanUsage { total: 9, count: 1 },
        MeanUsage { total: 2, count: 4 },
        MeanUsage { total: 9, count: 3 },
        MeanUsage { total: 1, count: 2 },
        MeanUsage { total: 0, count: 7 },
    ];
    assert_eq!(
        sort_ascending(&means),
        vec![
            MeanUsage { total: 0, count: 7 },
            MeanUsage { total: 2, count: 4 },
            MeanUsage { total: 1, count: 2 },
            MeanUsage { total: 9, count: 3 },
            MeanUsage { total: 9, count: 1 },
        ]
    );
    assert_eq!(sort_ascending(&Vec::new()), Vec::new());
}

#[test]
fn le_compares_exact_fractions() {
    let third = MeanUsage { total: 1, count: 3 };
    let half = MeanUsage { total: 1, count: 2 };
    let two_quarters = MeanUsage { total: 2, count: 4 };
    assert!(third.le(&half));
    assert!(!half.le(&third));
    assert!(half.le(&two_quarters));
    assert!(two_quarters.le(&half));
    let big = MeanUsage { total: u64::MAX, count: u32::MAX };
    let bigger = MeanUsage { total: u64::MAX, count: u32::MAX - 1 };
    assert!(big.le(&bigger));
    assert!(!bigger.le(&big));
}

#[test]
fn full_scale_is_one_hundred_percent() {
    let entries = vec![entry(1, FULL_SCALE), entry(1, FULL_SCALE), entry(2, 0)];
    let report = usage_report(&entries);
    let percents: Vec<f64> = report.iter().map(percent).collect();
    assert_eq!(percents, vec![0.0, 100.0]);
    for mean in &report {
        assert!(mean.total <= mean.count as u64 * FULL_SCALE as u64);
    }
}

#[test]
fn position_is_the_first_match() {
    let luid = Luid { high_part: 2, low_part: 2 };
    let luids = vec![Luid { high_part: 0, low_part: 2 }, luid, luid];
    assert_eq!(position(&luids, luid), Some(1));
}
