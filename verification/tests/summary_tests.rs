use ccr_enclave::binary64::Real;
use ccr_enclave::sorting::sort_values;
use ccr_enclave::summary::{quantile_positions, summary};

fn num(x: f64) -> Real {
    Real::from_bits(x.to_bits())
}

fn value(x: &Real) -> f64 {
    f64::from_bits(x.to_bits())
}

#[test]
fn sorts_ascending() {
    let input: Vec<Real> = [3.0, -1.0, 2.5, 10.0, -7.25, 2.5].iter().map(|x| num(*x)).collect();
    let sorted: Vec<f64> = sort_values(&input).iter().map(value).collect();
    assert_eq!(sorted, vec![-7.25, -1.0, 2.5, 2.5, 3.0, 10.0]);
}

#[test]
fn sort_keeps_order_of_equal_values() {
    let input = vec![num(0.0), num(1.0), num(-0.0)];
    let sorted = sort_values(&input);
    assert_eq!(sorted[0].to_bits(), 0.0f64.to_bits());
    assert_eq!(sorted[1].to_bits(), (-0.0f64).to_bits());
    assert_eq!(value(&sorted[2]), 1.0);
    let input = vec![num(-0.0), num(0.0)];
    let sorted = sort_values(&input);
    assert_eq!(sorted[0].to_bits(), (-0.0f64).to_bits());
    assert_eq!(sorted[1].to_bits(), 0.0f64.to_bits());
}

#[test]
fn sort_of_empty_and_single() {
    assert!(sort_values(&Vec::new()).is_empty());
    let one = sort_values(&vec![num(4.0)]);
    assert_eq!(one.len(), 1);
    assert_eq!(value(&one[0]), 4.0);
}

#[test]
fn positions_for_ten_observations() {
    let p = quantile_positions(10);
    assert_eq!((p.p5, p.q1, p.q2_low, p.q2_high, p.q3, p.p95), (0, 2, 4, 5, 7, 9));
}

#[test]
fn positions_for_two_observations() {
    let p = quantile_positions(2);
    assert_eq!((p.p5, p.q1, p.q2_low, p.q2_high, p.q3, p.p95), (0, 0, 0, 1, 1, 1));
}

#[test]
fn positions_agree_with_float_rounding() {
    for n in 2usize..2000 {
        let p = quantile_positions(n);
        let q1 = (0.25 * (n as i64 + 1) as f64).round() - 1.0;
        let q2 = 0.5 * (n as i64 + 1) as f64;
        let q3 = (0.75 * (n as i64 + 1) as f64).round() - 1.0;
        let p5 = (0.05 * (n as i64) as f64).round() - 1.0;
        let p95 = (0.95 * (n as i64) as f64).round() - 1.0;
        assert_eq!(p.q1, q1 as usize, "n = {}", n);
        assert_eq!(p.q2_low, (q2.floor() - 1.0) as usize, "n = {}", n);
        assert_eq!(p.q2_high, (q2.ceil() - 1.0) as usize, "n = {}", n);
        assert_eq!(p.q3, q3 as usize, "n = {}", n);
        assert_eq!(p.p5, p5 as usize, "n = {}", n);
        assert_eq!(p.p95, p95 as usize, "n = {}", n);
    }
}

#[test]
fn summary_of_one_to_hundred() {
    let numbers: Vec<Real> = (1..=100).rev().map(|k| num(k as f64)).collect();
    let s = summary(&numbers);
    let sorted: Vec<f64> = s.sorted.iter().map(value).collect();
    let expected: Vec<f64> = (1..=100).map(|k| k as f64).collect();
    assert_eq!(sorted, expected);
    assert_eq!(s.count, 100);
    assert_eq!(value(&s.p5), 5.0);
    assert_eq!(value(&s.q1), 25.0);
    assert_eq!(value(&s.q2_low), 50.0);
    assert_eq!(value(&s.q2_high), 51.0);
    assert_eq!(value(&s.q3), 76.0);
    assert_eq!(value(&s.p95), 95.0);
}

#[test]
fn summary_points_are_ordered() {
    let numbers: Vec<Real> = [9.5, -3.0, 0.25, 7.0, 7.0, 1e10, -1e-3, 4.0, 2.0, 3.5, 11.0]
        .iter()
        .map(|x| num(*x))
        .collect();
    let s = summary(&numbers);
    let points = [s.p5, s.q1, s.q2_low, s.q2_high, s.q3, s.p95];
    for w in points.windows(2) {
        assert!(w[0].le(&w[1]));
    }
}

#[test]
fn summary_of_two_values() {
    let s = summary(&vec![num(8.0), num(2.0)]);
    assert_eq!(s.count, 2);
    assert_eq!(value(&s.p5), 2.0);
    assert_eq!(value(&s.q1), 2.0);
    assert_eq!(value(&s.q2_low), 2.0);
    assert_eq!(value(&s.q2_high), 8.0);
    assert_eq!(value(&s.q3), 8.0);
    assert_eq!(value(&s.p95), 8.0);
}

#[test]
fn p5_is_rounded() {
    let numbers: Vec<Real> = (1..=39).map(|k| num(k as f64)).collect();
    let s = summary(&numbers);
    assert_eq!(value(&s.p5), 2.0);
    assert_eq!(quantile_positions(29).p5, 0);
    assert_eq!(quantile_positions(30).p5, 1);
    assert_eq!(quantile_positions(9).p5, 0);
}

#[test]
fn rearranged_sample_has_the_same_summary() {
    let a: Vec<Real> = [4.0, -2.0, 8.5, 0.0, 3.0, 3.0, 11.0].iter().map(|x| num(*x)).collect();
    let b: Vec<Real> = [3.0, 11.0, 0.0, 4.0, 8.5, 3.0, -2.0].iter().map(|x| num(*x)).collect();
    let (sa, sb) = (summary(&a), summary(&b));
    assert_eq!(sa.count, sb.count);
    for (x, y) in sa.sorted.iter().zip(sb.sorted.iter()) {
        assert!(x.value_eq(y));
    }
    assert!(sa.q1.value_eq(&sb.q1) && sa.q3.value_eq(&sb.q3) && sa.p95.value_eq(&sb.p95));
}
