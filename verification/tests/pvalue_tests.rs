use ccr_enclave::binary64::Real;
use ccr_enclave::pvalue::{
    describe_range, find_range, p_value, t_table_row, PValueRange, Student,
};

fn num(x: f64) -> Real {
    Real::from_bits(x.to_bits())
}

/// A row whose critical values are `1.0, 2.0, ..., 12.0`, scaled by `scale`.
fn row(dof: f64, scale: f64) -> Student {
    Student {
        DOF: num(dof),
        X1: num(1.0 * scale),
        X2: num(2.0 * scale),
        X3: num(3.0 * scale),
        X4: num(4.0 * scale),
        X5: num(5.0 * scale),
        X6: num(6.0 * scale),
        X7: num(7.0 * scale),
        X8: num(8.0 * scale),
        X9: num(9.0 * scale),
        X10: num(10.0 * scale),
        X11: num(11.0 * scale),
        X12: num(12.0 * scale),
    }
}

/// 108 rows; row `r` is scaled by `1 + r / 1000`.
fn table() -> Vec<Student> {
    (0..108).map(|r| row(r as f64 + 1.0, 1.0 + r as f64 / 1000.0)).collect()
}

#[test]
fn table_rows_by_observations() {
    assert_eq!(t_table_row(3), 0);
    assert_eq!(t_table_row(50), 47);
    assert_eq!(t_table_row(102), 99);
    assert_eq!(t_table_row(103), 100);
    assert_eq!(t_table_row(502), 100);
    assert_eq!(t_table_row(503), 101);
    assert_eq!(t_table_row(1002), 101);
    assert_eq!(t_table_row(5002), 102);
    assert_eq!(t_table_row(10002), 103);
    assert_eq!(t_table_row(30002), 104);
    assert_eq!(t_table_row(50002), 105);
    assert_eq!(t_table_row(100002), 106);
    assert_eq!(t_table_row(100003), 107);
    assert_eq!(t_table_row(usize::MAX), 107);
}

#[test]
fn ranges_of_a_row() {
    let r = row(10.0, 1.0);
    assert!(matches!(find_range(&num(0.5), &r), PValueRange::AboveHalf));
    assert!(matches!(find_range(&num(1.5), &r), PValueRange::Between(1)));
    assert!(matches!(find_range(&num(2.5), &r), PValueRange::Between(2)));
    assert!(matches!(find_range(&num(11.5), &r), PValueRange::Between(11)));
    assert!(matches!(find_range(&num(12.5), &r), PValueRange::BelowTenThousandth));
    assert!(matches!(find_range(&num(3.0), &r), PValueRange::Between(3)));
    assert!(matches!(find_range(&num(1.0), &r), PValueRange::Between(1)));
    assert!(matches!(find_range(&num(12.0), &r), PValueRange::BelowTenThousandth));
    assert!(matches!(find_range(&num(f64::NAN), &r), PValueRange::Undetermined));
    assert!(matches!(find_range(&num(f64::INFINITY), &r), PValueRange::BelowTenThousandth));
}

#[test]
fn texts_of_ranges() {
    assert_eq!(describe_range(PValueRange::AboveHalf), "p > 0.5");
    assert_eq!(describe_range(PValueRange::Between(1)), "0.2 < p < 0.5");
    assert_eq!(describe_range(PValueRange::Between(4)), "0.02 < p < 0.05  [Significant]");
    assert_eq!(describe_range(PValueRange::Between(8)), "0.001 < p < 0.002  [Significant]");
    assert_eq!(describe_range(PValueRange::Between(9)), "0.0004 < p < 0.001  [Significant]");
    assert_eq!(describe_range(PValueRange::Between(11)), "0.0001 < p < 0.0002  [Significant]");
    assert_eq!(describe_range(PValueRange::BelowTenThousandth), "p < 0.0001  [Significant]");
    assert_eq!(describe_range(PValueRange::Undetermined), "placeholder");
}

#[test]
fn p_value_uses_the_row_for_the_sample_size() {
    let t = table();
    // 10 observations: row 7, scale 1.007
    assert_eq!(p_value(&num(2.5), 10, &t), "0.1 < p < 0.2");
    // 2.0 lies below X2 = 2.014 of row 7
    assert_eq!(p_value(&num(2.01), 10, &t), "0.2 < p < 0.5");
    // 1000 observations: row 101, scale 1.101; 2.1 < X2 = 2.202
    assert_eq!(p_value(&num(2.1), 1000, &t), "0.2 < p < 0.5");
    assert_eq!(p_value(&num(0.5), 200000, &t), "p > 0.5");
    assert_eq!(p_value(&num(100.0), 200000, &t), "p < 0.0001  [Significant]");
}

#[test]
fn p_value_ignores_the_sign() {
    let t = table();
    for x in [0.3, 1.5, 2.5, 4.2, 6.6, 9.9, 11.2, 50.0].iter() {
        assert_eq!(p_value(&num(*x), 40, &t), p_value(&num(-*x), 40, &t));
    }
    assert_eq!(p_value(&num(-4.5), 3, &t), "0.02 < p < 0.05  [Significant]");
}

#[test]
fn p_value_on_a_critical_value() {
    let t = table();
    // row 0 has scale 1.0: a critical value takes the range above it
    assert_eq!(p_value(&num(5.0), 3, &t), "0.01 < p < 0.02  [Significant]");
    assert_eq!(p_value(&num(2.0), 3, &t), "0.1 < p < 0.2");
    assert_eq!(p_value(&num(-1.0), 3, &t), "0.2 < p < 0.5");
    assert_eq!(p_value(&num(8.5), 3, &t), "0.001 < p < 0.002  [Significant]");
    assert_eq!(p_value(&num(12.0), 3, &t), "p < 0.0001  [Significant]");
}

#[test]
fn p_value_of_nan() {
    let t = table();
    assert_eq!(p_value(&num(f64::NAN), 3, &t), "placeholder");
}

fn rank(r: PValueRange) -> usize {
    match r {
        PValueRange::AboveHalf => 0,
        PValueRange::Between(i) => i,
        PValueRange::BelowTenThousandth => 12,
        PValueRange::Undetermined => 13,
    }
}

#[test]
fn larger_statistics_get_smaller_p() {
    let r = row(30.0, 1.003);
    let mut previous = 0;
    for k in 0..140 {
        let a = k as f64 * 0.1;
        let current = rank(find_range(&num(a), &r));
        assert!(current <= 12, "{} has a range", a);
        assert!(previous <= current, "at {}", a);
        previous = current;
    }
    assert_eq!(previous, 12);
    for k in 1..=12 {
        assert_eq!(rank(find_range(&num(k as f64), &row(1.0, 1.0))), k);
    }
}
