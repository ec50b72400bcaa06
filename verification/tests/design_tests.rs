use ccr_enclave::binary64::Real;
use ccr_enclave::design::{coefficient_name, rows_from_columns, CoefficientName};

fn num(x: f64) -> Real {
    Real::from_bits(x.to_bits())
}

fn value(x: &Real) -> f64 {
    f64::from_bits(x.to_bits())
}

#[test]
fn rows_hold_one_value_of_each_column() {
    let columns = vec![
        vec![num(1.0), num(2.0), num(3.0)],
        vec![num(10.0), num(20.0), num(30.0)],
    ];
    let rows = rows_from_columns(&columns);
    let rows: Vec<Vec<f64>> = rows.iter().map(|r| r.iter().map(value).collect()).collect();
    assert_eq!(rows, vec![vec![1.0, 10.0], vec![2.0, 20.0], vec![3.0, 30.0]]);
}

#[test]
fn rows_of_empty_columns() {
    let columns: Vec<Vec<Real>> = vec![Vec::new(), Vec::new()];
    assert!(rows_from_columns(&columns).is_empty());
}

#[test]
fn coefficient_names() {
    assert_eq!(coefficient_name(0), CoefficientName::Intercept);
    assert_eq!(coefficient_name(1), CoefficientName::First);
    assert_eq!(coefficient_name(2), CoefficientName::Second);
    assert_eq!(coefficient_name(3), CoefficientName::Third);
    assert_eq!(coefficient_name(4), CoefficientName::Nth(4));
    assert_eq!(coefficient_name(17), CoefficientName::Nth(17));
}
