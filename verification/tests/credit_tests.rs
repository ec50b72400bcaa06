use ccr_enclave::binary64::Real;
use ccr_enclave::credit::{
    band_columns, credit_health, income_band_of, indicator_column, lending_profile, Entry,
};

fn num(x: f64) -> Real {
    Real::from_bits(x.to_bits())
}

fn value(x: &Real) -> f64 {
    f64::from_bits(x.to_bits())
}

fn values(v: &Vec<Real>) -> Vec<f64> {
    v.iter().map(value).collect()
}

fn entry(id: &str, sex: f64, education: f64, postal: f64, loan: f64, term: f64, income: f64) -> Entry {
    Entry {
        ID: id.to_string(),
        Name: "Name".to_string(),
        Surname: "Surname".to_string(),
        SEX: num(sex),
        EDUCATION: num(education),
        MARRIAGE: num(1.0),
        AGE: num(30.0),
        Phone: "000".to_string(),
        Email: "a@b.c".to_string(),
        Street: "Street".to_string(),
        City: "City".to_string(),
        Postal: num(postal),
        Loan: num(loan),
        Interest: num(loan / 10.0),
        Term: num(term),
        Income: num(income),
    }
}

fn register() -> Vec<Entry> {
    vec![
        entry("1", 1.0, 2.0, 7100.0, 1000.0, 5.0, 20000.0),
        entry("2", 2.0, 3.0, 7100.0, 2000.0, 3.0, 60000.0),
        entry("3", 1.0, 6.0, 2000.0, 3000.0, 10.0, 50000.0),
        entry("4", 2.0, 1.0, 7100.0, 4000.0, 10.0, 310000.0),
        entry("5", 1.0, 4.0, 7100.0, 5000.0, 4.0, -5.0),
        entry("6", 2.0, 5.0, 7100.0, 6000.0, 7.5, 299999.5),
    ]
}

#[test]
fn lending_profile_selects_postal_and_term() {
    let p = lending_profile(&register(), &num(7100.0), &num(4.0));
    assert_eq!(values(&p.loan), vec![1000.0, 4000.0, 5000.0, 6000.0]);
    assert_eq!(values(&p.interest), vec![100.0, 400.0, 500.0, 600.0]);
    assert_eq!(values(&p.term), vec![5.0, 10.0, 4.0, 7.5]);
}

#[test]
fn lending_profile_without_matches() {
    let p = lending_profile(&register(), &num(9999.0), &num(0.0));
    assert!(p.loan.is_empty() && p.interest.is_empty() && p.term.is_empty());
    let p = lending_profile(&register(), &num(f64::NAN), &num(0.0));
    assert!(p.loan.is_empty());
}

#[test]
fn income_bands_at_their_bounds() {
    assert_eq!(income_band_of(&num(0.0)), 0);
    assert_eq!(income_band_of(&num(-0.0)), 0);
    assert_eq!(income_band_of(&num(49999.99)), 0);
    assert_eq!(income_band_of(&num(50000.0)), 1);
    assert_eq!(income_band_of(&num(149999.0)), 2);
    assert_eq!(income_band_of(&num(150000.0)), 3);
    assert_eq!(income_band_of(&num(200000.0)), 4);
    assert_eq!(income_band_of(&num(299999.999)), 5);
    assert_eq!(income_band_of(&num(300000.0)), 6);
    assert_eq!(income_band_of(&num(-0.01)), 6);
    assert_eq!(income_band_of(&num(f64::NAN)), 6);
    assert_eq!(income_band_of(&num(f64::INFINITY)), 6);
    assert_eq!(income_band_of(&num(f64::NEG_INFINITY)), 6);
}

#[test]
fn band_columns_keep_register_order() {
    let b = band_columns(&register(), 1);
    assert_eq!(values(&b.loan), vec![2000.0, 3000.0]);
    assert_eq!(values(&b.income), vec![60000.0, 50000.0]);
    let b = band_columns(&register(), 6);
    assert_eq!(values(&b.loan), vec![4000.0, 5000.0]);
}

#[test]
fn indicators_match_integer_codes() {
    let v = vec![num(1.0), num(2.0), num(1.0000001), num(f64::NAN), num(1.0)];
    assert_eq!(indicator_column(&v, 1), vec![true, false, false, false, true]);
}

#[test]
fn credit_health_columns() {
    let entries = register();
    let c = credit_health(&entries);
    assert_eq!(values(&c.loan), vec![1000.0, 2000.0, 3000.0, 4000.0, 5000.0, 6000.0]);
    assert_eq!(values(&c.income), vec![20000.0, 60000.0, 50000.0, 310000.0, -5.0, 299999.5]);
    assert_eq!(values(&c.sex), vec![1.0, 2.0, 1.0, 2.0, 1.0, 2.0]);
    assert_eq!(values(&c.education), vec![2.0, 3.0, 6.0, 1.0, 4.0, 5.0]);
    assert_eq!(c.male, vec![true, false, true, false, true, false]);
    assert_eq!(c.education_levels.len(), 5);
    assert_eq!(c.education_levels[0], vec![true, false, false, false, false, false]);
    assert_eq!(c.education_levels[1], vec![false, true, false, false, false, false]);
    assert_eq!(c.education_levels[2], vec![false, false, false, false, true, false]);
    assert_eq!(c.education_levels[3], vec![false, false, false, false, false, true]);
    assert_eq!(c.education_levels[4], vec![false, false, true, false, false, false]);
    assert_eq!(c.bands.len(), 7);
    let sizes: Vec<usize> = c.bands.iter().map(|b| b.loan.len()).collect();
    assert_eq!(sizes, vec![1, 2, 0, 0, 0, 1, 2]);
    assert_eq!(sizes.iter().sum::<usize>(), entries.len());
    assert_eq!(values(&c.bands[5].income), vec![299999.5]);
    assert_eq!(values(&c.bands[0].loan), vec![1000.0]);
}

#[test]
fn credit_health_of_empty_register() {
    let c = credit_health(&Vec::new());
    assert!(c.loan.is_empty() && c.male.is_empty());
    assert_eq!(c.bands.len(), 7);
    assert!(c.bands.iter().all(|b| b.loan.is_empty() && b.income.is_empty()));
}

#[test]
fn rearranged_register_gives_the_same_bands() {
    let mut shuffled = register();
    shuffled.reverse();
    shuffled.swap(0, 3);
    let (a, b) = (credit_health(&register()), credit_health(&shuffled));
    for (x, y) in a.bands.iter().zip(b.bands.iter()) {
        let mut lx = values(&x.loan);
        let mut ly = values(&y.loan);
        lx.sort_by(|p, q| p.partial_cmp(q).unwrap());
        ly.sort_by(|p, q| p.partial_cmp(q).unwrap());
        assert_eq!(lx, ly);
        let mut ix = values(&x.income);
        let mut iy = values(&y.income);
        ix.sort_by(|p, q| p.partial_cmp(q).unwrap());
        iy.sort_by(|p, q| p.partial_cmp(q).unwrap());
        assert_eq!(ix, iy);
    }
}
